//! Running an automaton: what it means for an automaton to accept an input,
//! the epsilon closure of a state, and the backtracking search that decides
//! acceptance.
use crate::nfa::{Label, NfaModel, State, NFA};
use std::collections::HashSet;
use vstd::prelude::*;
use vstd::std_specs::iter::IteratorSpec;

verus! {

impl NfaModel {
    /// State `b` is reached from state `a` by exactly `n` epsilon
    /// transitions.
    pub open spec fn eps_path(self, a: nat, b: nat, n: nat) -> bool
        decreases n,
    {
        if n == 0 {
            a == b
        } else {
            exists|mid: nat|
                #[trigger] self.edge(a, Label::Epsilon, mid) && self.eps_path(
                    mid,
                    b,
                    (n - 1) as nat,
                )
        }
    }

    /// State `b` is reached from state `a` by one or more epsilon
    /// transitions. A state reaches itself only through a cycle.
    pub open spec fn eps_reachable(self, a: nat, b: nat) -> bool {
        exists|n: nat| n >= 1 && #[trigger] self.eps_path(a, b, n)
    }

    /// The epsilon closure of `a`: all states that `a` reaches by one or
    /// more epsilon transitions.
    pub open spec fn closure(self, a: nat) -> Set<nat> {
        Set::new(|b: nat| self.eps_reachable(a, b))
    }

    /// Some state of the epsilon closure of `a` accepts.
    pub open spec fn closure_accepts(self, a: nat) -> bool {
        exists|b: nat| #[trigger] self.eps_reachable(a, b) && self.accepting(b)
    }

    /// From state `t`, reading `c` leads to state `d`: `t` has a transition
    /// to `d` that reads `c`, and `d` is not in the epsilon closure of `t`.
    /// (A transition into the state's own closure counts as an epsilon move
    /// and reads nothing.)
    pub open spec fn consumes(self, t: nat, c: char, d: nat) -> bool {
        &&& self.edge(t, Label::Char(c), d) || self.edge(t, Label::Any, d)
        &&& !self.eps_reachable(t, d)
    }

    /// The search positioned at state `s` with `input[i..]` left to read
    /// reports a match.
    ///
    /// It does so when the epsilon closure of `s` holds an accepting state.
    /// Otherwise, while input is left, it does so when `s` itself or a state
    /// of its closure makes a matching step on the next character. Whether
    /// `s` itself accepts was looked at when the search came to `s`: by the
    /// step that reached it, or, for the entry state, by `accepts`.
    pub open spec fn accepts_from(self, s: nat, input: Seq<char>, i: nat) -> bool
        decreases input.len() - i, 1nat,
    {
        if i >= input.len() {
            self.closure_accepts(s)
        } else {
            ||| self.closure_accepts(s)
            ||| self.step_matches(s, input, i)
            ||| exists|t: nat| #[trigger] self.eps_reachable(s, t) && self.step_matches(t, input, i)
        }
    }

    /// Input is left at `i`, and reading `input[i]` from state `t` leads to
    /// a state that accepts, or from which the search with the rest of the
    /// input reports a match. Reaching an accepting state ends the search at
    /// once: input behind that point is not looked at.
    pub open spec fn step_matches(self, t: nat, input: Seq<char>, i: nat) -> bool
        decreases input.len() - i, 0nat,
    {
        &&& i < input.len()
        &&& exists|d: nat| #[trigger]
            self.consumes(t, input[i as int], d) && (self.accepting(d) || self.accepts_from(
                d,
                input,
                i + 1,
            ))
    }

    /// The automaton accepts `input`: the entry state accepts, so that
    /// nothing needs to be read, or the search from the entry state with all
    /// of `input` left to read reports a match.
    pub open spec fn accepts(self, input: Seq<char>) -> bool {
        self.accepting(self.start) || self.accepts_from(self.start, input, 0)
    }
}

/// One epsilon transition is an epsilon path.
pub proof fn lemma_eps_step(m: NfaModel, a: nat, b: nat)
    requires
        m.edge(a, Label::Epsilon, b),
    ensures
        m.eps_reachable(a, b),
{
    assert(m.eps_path(b, b, 0));
    assert(m.eps_path(a, b, 1));
}

/// An epsilon transition followed by an epsilon path is an epsilon path.
pub proof fn lemma_eps_prepend(m: NfaModel, a: nat, mid: nat, b: nat)
    requires
        m.edge(a, Label::Epsilon, mid),
        m.eps_reachable(mid, b),
    ensures
        m.eps_reachable(a, b),
{
    let n = choose|n: nat| n >= 1 && #[trigger] m.eps_path(mid, b, n);
    assert(m.eps_path(mid, b, ((n + 1) - 1) as nat));
    assert(m.eps_path(a, b, n + 1));
}

/// In a well-formed automaton every state that is reached by epsilon
/// transitions exists.
pub proof fn lemma_reached_state_exists(m: NfaModel, a: nat, b: nat)
    requires
        m.well_formed(),
        m.eps_reachable(a, b),
    ensures
        m.has_state(b),
{
    let n = choose|n: nat| n >= 1 && #[trigger] m.eps_path(a, b, n);
    lemma_path_end_exists(m, a, b, n);
}

proof fn lemma_path_end_exists(m: NfaModel, a: nat, b: nat, n: nat)
    requires
        m.well_formed(),
        n >= 1,
        m.eps_path(a, b, n),
    ensures
        m.has_state(b),
    decreases n,
{
    let mid = choose|mid: nat|
        #[trigger] m.edge(a, Label::Epsilon, mid) && m.eps_path(mid, b, (n - 1) as nat);
    if n >= 2 {
        lemma_path_end_exists(m, mid, b, (n - 1) as nat);
    }
}

/// Why a search could not be run.
#[derive(Clone, Copy, Debug, PartialEq, Eq, Structural)]
pub enum MatchError {
    /// The automaton is not well formed: its entry state is missing, a state
    /// is kept under another identifier than its own, or a transition leads
    /// to a state that does not exist.
    MalformedAutomaton,
    /// The automaton has no state with the given identifier.
    UnknownState,
}

impl NfaModel {
    /// State `b` is reached from state `a` by exactly `n` epsilon
    /// transitions, none of which leads to a state of `avoid`.
    pub open spec fn eps_path_outside(self, a: nat, b: nat, n: nat, avoid: Set<nat>) -> bool
        decreases n,
    {
        if n == 0 {
            a == b
        } else {
            exists|mid: nat|
                #[trigger] self.edge(a, Label::Epsilon, mid) && !avoid.contains(mid)
                    && self.eps_path_outside(mid, b, (n - 1) as nat, avoid)
        }
    }

    /// State `b` is reached from state `a` by one or more epsilon
    /// transitions, all states behind `a` lying outside `avoid`.
    pub open spec fn eps_reachable_outside(self, a: nat, b: nat, avoid: Set<nat>) -> bool {
        exists|n: nat| n >= 1 && #[trigger] self.eps_path_outside(a, b, n, avoid)
    }
}

/// The identifiers of `ids` as numbers.
pub open spec fn as_nats(ids: Set<usize>) -> Set<nat> {
    Set::new(|x: nat| x <= usize::MAX && ids.contains(x as usize))
}

/// A path outside a set is a path.
pub proof fn lemma_outside_is_path(m: NfaModel, a: nat, b: nat, n: nat, avoid: Set<nat>)
    requires
        m.eps_path_outside(a, b, n, avoid),
    ensures
        m.eps_path(a, b, n),
    decreases n,
{
    if n > 0 {
        let mid = choose|mid: nat|
            #[trigger] m.edge(a, Label::Epsilon, mid) && !avoid.contains(mid)
                && m.eps_path_outside(mid, b, (n - 1) as nat, avoid);
        lemma_outside_is_path(m, mid, b, (n - 1) as nat, avoid);
    }
}

/// A path outside a set is a path outside every part of that set; so every
/// path is one outside the empty set.
pub proof fn lemma_outside_of_less(
    m: NfaModel,
    a: nat,
    b: nat,
    n: nat,
    avoid: Set<nat>,
    less: Set<nat>,
)
    requires
        m.eps_path_outside(a, b, n, avoid),
        less.subset_of(avoid),
    ensures
        m.eps_path_outside(a, b, n, less),
    decreases n,
{
    if n > 0 {
        let mid = choose|mid: nat|
            #[trigger] m.edge(a, Label::Epsilon, mid) && !avoid.contains(mid)
                && m.eps_path_outside(mid, b, (n - 1) as nat, avoid);
        lemma_outside_of_less(m, mid, b, (n - 1) as nat, avoid, less);
    }
}

/// Every path is a path outside a set that holds nothing.
pub proof fn lemma_path_is_outside_nothing(m: NfaModel, a: nat, b: nat, n: nat, avoid: Set<nat>)
    requires
        m.eps_path(a, b, n),
        forall|x: nat| !avoid.contains(x),
    ensures
        m.eps_path_outside(a, b, n, avoid),
    decreases n,
{
    if n > 0 {
        let mid = choose|mid: nat|
            #[trigger] m.edge(a, Label::Epsilon, mid) && m.eps_path(mid, b, (n - 1) as nat);
        lemma_path_is_outside_nothing(m, mid, b, (n - 1) as nat, avoid);
    }
}

/// One epsilon transition to a state outside the set is a path outside it.
pub proof fn lemma_outside_step(m: NfaModel, a: nat, b: nat, avoid: Set<nat>)
    requires
        m.edge(a, Label::Epsilon, b),
        !avoid.contains(b),
    ensures
        m.eps_reachable_outside(a, b, avoid),
{
    assert(m.eps_path_outside(b, b, 0, avoid));
    assert(m.eps_path_outside(a, b, 1, avoid));
}

/// An epsilon transition to a state outside the set, followed by a path
/// outside it, is a path outside it.
pub proof fn lemma_outside_prepend(m: NfaModel, a: nat, mid: nat, b: nat, avoid: Set<nat>)
    requires
        m.edge(a, Label::Epsilon, mid),
        !avoid.contains(mid),
        m.eps_reachable_outside(mid, b, avoid),
    ensures
        m.eps_reachable_outside(a, b, avoid),
{
    let n = choose|n: nat| n >= 1 && #[trigger] m.eps_path_outside(mid, b, n, avoid);
    assert(m.eps_path_outside(mid, b, ((n + 1) - 1) as nat, avoid));
    assert(m.eps_path_outside(a, b, n + 1, avoid));
}

proof fn lemma_outside_path_append(m: NfaModel, a: nat, v: nat, w: nat, n: nat, avoid: Set<nat>)
    requires
        m.eps_path_outside(a, v, n, avoid),
        m.edge(v, Label::Epsilon, w),
        !avoid.contains(w),
    ensures
        m.eps_path_outside(a, w, n + 1, avoid),
    decreases n,
{
    if n == 0 {
        assert(m.eps_path_outside(w, w, 0, avoid));
        assert(m.eps_path_outside(a, w, 1, avoid));
    } else {
        let mid = choose|mid: nat|
            #[trigger] m.edge(a, Label::Epsilon, mid) && !avoid.contains(mid)
                && m.eps_path_outside(mid, v, (n - 1) as nat, avoid);
        lemma_outside_path_append(m, mid, v, w, (n - 1) as nat, avoid);
        assert(m.eps_path_outside(mid, w, ((n + 1) - 1) as nat, avoid));
    }
}

/// A path outside the set, followed by an epsilon transition to a state
/// outside it, is a path outside it.
pub proof fn lemma_outside_append(m: NfaModel, a: nat, v: nat, w: nat, avoid: Set<nat>)
    requires
        m.eps_reachable_outside(a, v, avoid),
        m.edge(v, Label::Epsilon, w),
        !avoid.contains(w),
    ensures
        m.eps_reachable_outside(a, w, avoid),
{
    let n = choose|n: nat| n >= 1 && #[trigger] m.eps_path_outside(a, v, n, avoid);
    lemma_outside_path_append(m, a, v, w, n, avoid);
}

/// A set of states that no epsilon transition leads out of, but into
/// `avoid`, holds everything that its members reach by paths outside
/// `avoid`.
pub proof fn lemma_closed_set_holds_paths_outside(
    m: NfaModel,
    set: Set<nat>,
    avoid: Set<nat>,
    a: nat,
    b: nat,
    n: nat,
)
    requires
        set.contains(a),
        forall|x: nat, y: nat|
            set.contains(x) && #[trigger] m.edge(x, Label::Epsilon, y) && !avoid.contains(y)
                ==> set.contains(y),
        m.eps_path_outside(a, b, n, avoid),
    ensures
        set.contains(b),
    decreases n,
{
    if n >= 1 {
        let mid = choose|mid: nat|
            #[trigger] m.edge(a, Label::Epsilon, mid) && !avoid.contains(mid)
                && m.eps_path_outside(mid, b, (n - 1) as nat, avoid);
        lemma_closed_set_holds_paths_outside(m, set, avoid, mid, b, (n - 1) as nat);
    }
}

/// What the walk from `current` has come to when, having started with the
/// states `before` visited, it has the states `now` visited: nothing was
/// taken away, every state that was added is reached from `current` by a
/// path outside `before`, and no epsilon transition leads from a state
/// that was added to a state that is not visited.
pub open spec fn walked(m: NfaModel, current: nat, before: Set<usize>, now: Set<usize>) -> bool {
    &&& before.subset_of(now)
    &&& forall|b: usize|
        now.contains(b) && !before.contains(b) ==> #[trigger] m.eps_reachable_outside(
            current,
            b as nat,
            as_nats(before),
        )
    &&& forall|v: usize, w: usize|
        now.contains(v) && !before.contains(v) && #[trigger] m.edge(
            v as nat,
            Label::Epsilon,
            w as nat,
        ) ==> now.contains(w)
}

/// What the walk through one more transition of `current`, to the state
/// `t` that was not visited, adds to what the walk has come to.
proof fn lemma_walk_grows(
    m: NfaModel,
    current: usize,
    t: usize,
    before: Set<usize>,
    now: Set<usize>,
    after: Set<usize>,
)
    requires
        m.well_formed(),
        walked(m, current as nat, before, now),
        m.edge(current as nat, Label::Epsilon, t as nat),
        !now.contains(t),
        forall|b: usize|
            after.contains(b) <==> now.insert(t).contains(b) || m.eps_reachable_outside(
                t as nat,
                b as nat,
                as_nats(now.insert(t)),
            ),
    ensures
        walked(m, current as nat, before, after),
        now.subset_of(after),
        after.contains(t),
{
    let with_t = now.insert(t);
    let avoid = as_nats(before);
    let inner = as_nats(with_t);
    assert(avoid.subset_of(inner));
    assert(with_t.contains(t));
    assert forall|b: usize| after.contains(b) && !before.contains(b) implies #[trigger]
        m.eps_reachable_outside(current as nat, b as nat, avoid) by {
        if now.contains(b) {
        } else if b == t {
            lemma_outside_step(m, current as nat, t as nat, avoid);
        } else {
            assert(m.eps_reachable_outside(t as nat, b as nat, inner));
            let n = choose|n: nat|
                n >= 1 && #[trigger] m.eps_path_outside(t as nat, b as nat, n, inner);
            lemma_outside_of_less(m, t as nat, b as nat, n, inner, avoid);
            assert(m.eps_reachable_outside(t as nat, b as nat, avoid));
            lemma_outside_prepend(m, current as nat, t as nat, b as nat, avoid);
        }
    }
    assert forall|v: usize, w: usize|
        after.contains(v) && !before.contains(v) && #[trigger] m.edge(
            v as nat,
            Label::Epsilon,
            w as nat,
        ) implies after.contains(w) by {
        if now.contains(v) {
            assert(now.contains(w));
            assert(with_t.contains(w));
        } else if with_t.contains(w) {
        } else if v == t {
            lemma_outside_step(m, t as nat, w as nat, inner);
        } else {
            assert(m.eps_reachable_outside(t as nat, v as nat, inner));
            lemma_outside_append(m, t as nat, v as nat, w as nat, inner);
        }
    }
    assert forall|b: usize| now.contains(b) implies after.contains(b) by {
        assert(with_t.contains(b));
    }
    assert forall|b: usize| before.contains(b) implies after.contains(b) by {
        assert(now.contains(b));
        assert(with_t.contains(b));
    }
}

/// Once every epsilon transition of `current` leads to a visited state, the
/// walk has added exactly the states that `current` reaches by paths
/// outside what was visited before.
proof fn lemma_walk_done(m: NfaModel, current: usize, before: Set<usize>, now: Set<usize>)
    requires
        m.well_formed(),
        forall|k: nat| #[trigger] m.has_state(k) ==> k <= usize::MAX,
        walked(m, current as nat, before, now),
        forall|w: usize| #[trigger]
            m.edge(current as nat, Label::Epsilon, w as nat) ==> now.contains(w),
    ensures
        forall|b: usize|
            now.contains(b) <==> before.contains(b) || m.eps_reachable_outside(
                current as nat,
                b as nat,
                as_nats(before),
            ),
{
    let avoid = as_nats(before);
    let added = Set::new(
        |x: nat| x <= usize::MAX && now.contains(x as usize) && !before.contains(x as usize),
    );
    assert forall|x: nat, y: nat|
        added.contains(x) && #[trigger] m.edge(x, Label::Epsilon, y) && !avoid.contains(
            y,
        ) implies added.contains(y) by {
        assert(m.has_state(y));
        assert(m.edge((x as usize) as nat, Label::Epsilon, (y as usize) as nat));
    }
    assert forall|b: usize|
        now.contains(b) <==> before.contains(b) || m.eps_reachable_outside(
            current as nat,
            b as nat,
            avoid,
        ) by {
        if before.contains(b) {
            assert(now.contains(b));
        }
        if m.eps_reachable_outside(current as nat, b as nat, avoid) {
            let n = choose|n: nat|
                n >= 1 && #[trigger] m.eps_path_outside(current as nat, b as nat, n, avoid);
            let mid = choose|mid: nat|
                #[trigger] m.edge(current as nat, Label::Epsilon, mid) && !avoid.contains(mid)
                    && m.eps_path_outside(mid, b as nat, (n - 1) as nat, avoid);
            assert(m.has_state(mid));
            assert(m.edge(current as nat, Label::Epsilon, (mid as usize) as nat));
            assert(now.contains(mid as usize));
            assert(added.contains(mid));
            lemma_closed_set_holds_paths_outside(
                m,
                added,
                avoid,
                mid,
                b as nat,
                (n - 1) as nat,
            );
            assert(added.contains(b as nat));
        }
        if now.contains(b) && !before.contains(b) {
            assert(m.eps_reachable_outside(current as nat, b as nat, avoid));
        }
    }
}

/// With one more state visited, fewer states are left to visit.
proof fn lemma_fewer_left(all: Set<usize>, before: Set<usize>, now: Set<usize>, t: usize)
    requires
        all.finite(),
        before.subset_of(now),
        all.contains(t),
        !now.contains(t),
    ensures
        all.difference(now.insert(t)).len() < all.difference(before).len(),
{
    let left_before = all.difference(before);
    let left_after = all.difference(now.insert(t));
    vstd::set_lib::lemma_len_subset(left_before, all);
    assert(left_before.contains(t));
    assert(left_after.subset_of(left_before.remove(t)));
    vstd::set_lib::lemma_len_subset(left_after, left_before.remove(t));
}

/// Adds to `visited` the states that `current_state_id` reaches by one or
/// more epsilon transitions through states that were not visited: every
/// transition into a visited state is left alone, every other one is
/// followed, and what it leads to is visited from then on.
fn _epsilon_closure(nfa: &NFA, current_state_id: usize, visited: &mut HashSet<usize>)
    requires
        nfa@.well_formed(),
        nfa@.has_state(current_state_id as nat),
    ensures
        forall|b: usize|
            final(visited)@.contains(b) <==> old(visited)@.contains(b)
                || nfa@.eps_reachable_outside(
                current_state_id as nat,
                b as nat,
                as_nats(old(visited)@),
            ),
    decreases nfa.table().dom().difference(old(visited)@).len(),
{
    broadcast use vstd::std_specs::hash::group_hash_axioms;

    let total: usize = nfa.state_count();
    let state: &State = match nfa.state(current_state_id) {
        Some(s) => s,
        None => {
            return ;
        },
    };
    let n: usize = state.transition_count();
    let mut i: usize = 0;
    while i < n
        invariant
            i <= n,
            n == state.edge_list().len(),
            nfa@.well_formed(),
            nfa.table().dom().finite(),
            nfa.table().contains_key(current_state_id),
            *state == nfa.table()[current_state_id],
            walked(nfa@, current_state_id as nat, old(visited)@, visited@),
            forall|j: int|
                0 <= j < i && (#[trigger] state.edge_list()[j]).0 == Label::Epsilon
                    ==> visited@.contains(state.edge_list()[j].1),
        decreases n - i,
    {
        let e = state.transition(i);
        if e.0.is_epsilon() {
            let next_state_id: usize = e.1;
            proof {
                assert(state.edge_list().contains((e.0, e.1)));
                assert(nfa@.edge(current_state_id as nat, Label::Epsilon, next_state_id as nat));
            }
            if !visited.contains(&next_state_id) {
                let ghost now = visited@;
                visited.insert(next_state_id);
                proof {
                    assert(nfa@.has_state(next_state_id as nat));
                    assert(nfa.table().dom().contains(next_state_id));
                    lemma_fewer_left(nfa.table().dom(), old(visited)@, now, next_state_id);
                }
                _epsilon_closure(nfa, next_state_id, visited);
                proof {
                    lemma_walk_grows(
                        nfa@,
                        current_state_id,
                        next_state_id,
                        old(visited)@,
                        now,
                        visited@,
                    );
                }
            }
        }
        i += 1;
    }
    proof {
        assert forall|w: usize| #[trigger]
            nfa@.edge(current_state_id as nat, Label::Epsilon, w as nat) implies visited@.contains(
            w,
        ) by {
            assert(state.edge_list().contains((Label::Epsilon, w)));
            let j = choose|j: int|
                0 <= j < state.edge_list().len() && state.edge_list()[j] == (Label::Epsilon, w);
            assert(state.edge_list()[j].0 == Label::Epsilon);
        }
        assert forall|k: nat| #[trigger] nfa@.has_state(k) implies k <= usize::MAX by {}
        lemma_walk_done(nfa@, current_state_id, old(visited)@, visited@);
    }
}

/// The epsilon closure of a state of a well-formed automaton.
pub fn closure_of(nfa: &NFA, current_state_id: usize) -> (closure: HashSet<usize>)
    requires
        nfa@.well_formed(),
        nfa@.has_state(current_state_id as nat),
    ensures
        forall|b: usize|
            closure@.contains(b) <==> nfa@.eps_reachable(current_state_id as nat, b as nat),
        closure@.subset_of(nfa.table().dom()),
{
    broadcast use vstd::std_specs::hash::group_hash_axioms;

    let mut visited: HashSet<usize> = HashSet::new();
    _epsilon_closure(nfa, current_state_id, &mut visited);
    proof {
        let m = nfa@;
        let nothing = as_nats(Set::<usize>::empty());
        assert forall|b: usize|
            visited@.contains(b) <==> m.eps_reachable(current_state_id as nat, b as nat) by {
            if m.eps_reachable(current_state_id as nat, b as nat) {
                let n = choose|n: nat|
                    n >= 1 && #[trigger] m.eps_path(current_state_id as nat, b as nat, n);
                lemma_path_is_outside_nothing(m, current_state_id as nat, b as nat, n, nothing);
                assert(m.eps_reachable_outside(current_state_id as nat, b as nat, nothing));
            }
            if m.eps_reachable_outside(current_state_id as nat, b as nat, nothing) {
                let n = choose|n: nat|
                    n >= 1 && #[trigger] m.eps_path_outside(
                        current_state_id as nat,
                        b as nat,
                        n,
                        nothing,
                    );
                lemma_outside_is_path(m, current_state_id as nat, b as nat, n, nothing);
            }
        }
        assert forall|b: usize| visited@.contains(b) implies nfa.table().dom().contains(b) by {
            lemma_reached_state_exists(m, current_state_id as nat, b as nat);
        }
    }
    visited
}

/// The epsilon closure of a state: the identifiers of all states reached
/// from it by one or more epsilon transitions. The walk ends on every
/// automaton, whatever cycles of epsilon transitions it has.
pub fn epsilon_closure(nfa: &NFA, current_state_id: usize) -> (r: Result<
    HashSet<usize>,
    MatchError,
>)
    ensures
        match r {
            Ok(closure) => {
                &&& nfa@.well_formed()
                &&& nfa@.has_state(current_state_id as nat)
                &&& forall|b: usize|
                    closure@.contains(b) <==> nfa@.closure(current_state_id as nat).contains(
                        b as nat,
                    )
                &&& forall|b: nat| #[trigger]
                    nfa@.closure(current_state_id as nat).contains(b) ==> b <= usize::MAX
            },
            Err(MatchError::MalformedAutomaton) => !nfa@.well_formed(),
            Err(MatchError::UnknownState) => nfa@.well_formed() && !nfa@.has_state(
                current_state_id as nat,
            ),
        },
{
    if !nfa.is_well_formed() {
        return Err(MatchError::MalformedAutomaton);
    }
    if nfa.state(current_state_id).is_none() {
        return Err(MatchError::UnknownState);
    }
    let closure = closure_of(nfa, current_state_id);
    proof {
        assert forall|b: nat| #[trigger]
            nfa@.closure(current_state_id as nat).contains(b) implies b <= usize::MAX by {
            lemma_reached_state_exists(nfa@, current_state_id as nat, b);
        }
    }
    Ok(closure)
}

impl NFA {
    /// A transition of the model that reads `c` is one of the transitions
    /// that the state lists.
    proof fn lemma_edge_is_listed(&self, t: usize, c: char, d: nat) -> (l: Label)
        requires
            self@.edge(t as nat, Label::Char(c), d) || self@.edge(t as nat, Label::Any, d),
        ensures
            l.reads(c),
            d <= usize::MAX,
            self.table().contains_key(t),
            self.table()[t].edge_list().contains((l, d as usize)),
    {
        let st: State = self.table()[t];
        assert(self@.states[t as nat] == st@);
        st.lemma_view_edges();
        if self@.edge(t as nat, Label::Char(c), d) {
            Label::Char(c)
        } else {
            Label::Any
        }
    }
}

/// How a search ended.
#[derive(Clone, Copy, Debug, PartialEq, Eq, Structural)]
pub enum MatchResult {
    Match,
    NoMatch,
}

/// An input as a sequence of characters, with a cursor into it.
#[derive(Debug)]
pub struct InputWithIndex {
    index: usize,
    input: Vec<char>,
}

impl InputWithIndex {
    /// The cursor: the number of characters read so far.
    pub closed spec fn position(&self) -> nat {
        self.index as nat
    }

    /// All characters of the input.
    pub closed spec fn text(&self) -> Seq<char> {
        self.input@
    }

    /// The characters of `input`, with the cursor before the first.
    pub fn new(input: &str) -> (r: Self)
        ensures
            r.position() == 0,
            r.text() == input@,
    {
        broadcast use vstd::string::group_string_axioms;

        let mut chars: Vec<char> = Vec::new();
        let ghost all: Seq<char> = input@;
        for c in it: input.chars()
            invariant
                it.seq() == all,
                chars@ == all.take(it.index() as int),
        {
            chars.push(c);
            assert(chars@ == all.take(it.index() + 1));
        }
        assert(chars@ == all);
        Self { index: 0, input: chars }
    }

    /// The cursor.
    pub fn index(&self) -> (i: usize)
        ensures
            i == self.position(),
    {
        self.index
    }

    /// The character at the cursor, if any, and moves the cursor on by one.
    pub fn next(&mut self) -> (r: Option<char>)
        requires
            old(self).position() < usize::MAX,
        ensures
            final(self).text() == old(self).text(),
            final(self).position() == old(self).position() + 1,
            r == if old(self).position() < old(self).text().len() {
                Some(old(self).text()[old(self).position() as int])
            } else {
                None
            },
    {
        let result = self.peek();
        self.index += 1;
        result
    }

    /// The character at the cursor, if any.
    pub fn peek(&self) -> (r: Option<char>)
        ensures
            self.text().len() <= usize::MAX,
            r == if self.position() < self.text().len() {
                Some(self.text()[self.position() as int])
            } else {
                None
            },
    {
        if self.index < self.input.len() {
            Some(self.input[self.index])
        } else {
            None
        }
    }

    /// Puts the cursor at `index`.
    pub fn set_index(&mut self, index: usize)
        ensures
            final(self).text() == old(self).text(),
            final(self).position() == index,
    {
        self.index = index;
    }

    /// Whether the cursor is behind the last character.
    pub fn is_end(&self) -> (b: bool)
        ensures
            b == (self.position() >= self.text().len()),
    {
        self.peek().is_none()
    }
}

/// The members of `set`, each once, in no particular order.
fn members_of(set: &HashSet<usize>) -> (members: Vec<usize>)
    ensures
        members@.no_duplicates(),
        members@.to_set() == set@,
{
    broadcast use vstd::std_specs::hash::group_hash_axioms;

    let mut members: Vec<usize> = Vec::new();
    let ghost all: Seq<usize> = set.iter().remaining().unref();
    for k in it: set.iter()
        invariant
            it.seq().unref() == all,
            members@ == all.take(it.index() as int),
    {
        members.push(*k);
        assert(members@ == all.take(it.index() + 1));
    }
    assert(members@ == all);
    members
}

/// Whether one of the given states accepts.
fn any_accepting(nfa: &NFA, ids: &Vec<usize>) -> (b: bool)
    ensures
        b == exists|k: int| 0 <= k < ids@.len() && nfa@.accepting(#[trigger] ids@[k] as nat),
{
    let mut k: usize = 0;
    while k < ids.len()
        invariant
            k <= ids@.len(),
            forall|j: int| 0 <= j < k ==> !nfa@.accepting(#[trigger] ids@[j] as nat),
        decreases ids@.len() - k,
    {
        match nfa.state(ids[k]) {
            Some(state) => {
                if state.is_accept() {
                    return true;
                }
            },
            None => {},
        }
        k += 1;
    }
    false
}

/// The search positioned at `current_state_id`, with the input behind the
/// cursor left to read.
///
/// A search that finds no match leaves the cursor where it was; one that
/// finds a match leaves it where the accepting state was seen: where it was
/// if the closure of the current state accepts, and never behind the end
/// of the text.
fn _match_nfa(nfa: &NFA, current_state_id: usize, input: &mut InputWithIndex) -> (r: MatchResult)
    requires
        nfa@.well_formed(),
        nfa@.has_state(current_state_id as nat),
    ensures
        (r == MatchResult::Match) == nfa@.accepts_from(
            current_state_id as nat,
            old(input).text(),
            old(input).position(),
        ),
        final(input).text() == old(input).text(),
        r == MatchResult::NoMatch ==> final(input).position() == old(input).position(),
        old(input).position() >= old(input).text().len() || nfa@.closure_accepts(
            current_state_id as nat,
        ) ==> final(input).position() == old(input).position(),
        final(input).position() >= old(input).position(),
        old(input).position() <= old(input).text().len() ==> final(input).position() <= old(
            input,
        ).text().len(),
    decreases old(input).text().len() - old(input).position(), 1nat,
{
    let ghost m = nfa@;
    let ghost s = current_state_id as nat;
    let ghost text = input.text();
    let ghost pos = input.position();
    let closure = closure_of(nfa, current_state_id);
    let members = members_of(&closure);
    if any_accepting(nfa, &members) {
        proof {
            let k = choose|k: int| 0 <= k < members@.len() && m.accepting(#[trigger] members@[k] as nat);
            assert(members@.to_set().contains(members@[k]));
            assert(m.eps_reachable(s, members@[k] as nat));
        }
        return MatchResult::Match;
    }
    proof {
        assert forall|b: nat| #[trigger] m.eps_reachable(s, b) implies !m.accepting(b) by {
            lemma_reached_state_exists(m, s, b);
            assert(closure@.contains(b as usize));
            assert(members@.to_set().contains(b as usize));
            let k = choose|k: int| 0 <= k < members@.len() && members@[k] == b as usize;
            assert(!m.accepting(members@[k] as nat));
        }
        assert(!m.closure_accepts(s));
    }
    if input.is_end() {
        return MatchResult::NoMatch;
    }
    match consume_from(nfa, current_state_id, &closure, input) {
        MatchResult::Match => {
            proof {
                assert(m.step_matches(s, text, pos));
                assert(m.accepts_from(s, text, pos));
            }
            return MatchResult::Match;
        },
        MatchResult::NoMatch => {},
    }
    let mut j: usize = 0;
    while j < members.len()
        invariant
            j <= members@.len(),
            m == nfa@,
            s == current_state_id as nat,
            m.well_formed(),
            !m.closure_accepts(s),
            members@.to_set() == closure@,
            forall|b: usize| closure@.contains(b) <==> m.eps_reachable(s, b as nat),
            closure@.subset_of(nfa.table().dom()),
            input.text() == text,
            input.position() == pos,
            text == old(input).text(),
            pos == old(input).position(),
            pos < text.len(),
            forall|k: int| 0 <= k < j ==> !m.step_matches(#[trigger] members@[k] as nat, text, pos),
        decreases members@.len() - j,
    {
        let t: usize = members[j];
        proof {
            assert(members@.to_set().contains(members@[j as int]));
            assert(nfa.table().dom().contains(t));
            assert(m.has_state(t as nat));
        }
        let closure_t = closure_of(nfa, t);
        match consume_from(nfa, t, &closure_t, input) {
            MatchResult::Match => {
                proof {
                    assert(m.eps_reachable(s, t as nat));
                    assert(m.step_matches(t as nat, text, pos));
                    assert(m.accepts_from(s, text, pos));
                }
                return MatchResult::Match;
            },
            MatchResult::NoMatch => {},
        }
        j += 1;
    }
    proof {
        assert forall|t: nat| #[trigger] m.eps_reachable(s, t) implies !m.step_matches(
            t,
            text,
            pos,
        ) by {
            lemma_reached_state_exists(m, s, t);
            assert(closure@.contains(t as usize));
            assert(members@.to_set().contains(t as usize));
            let k = choose|k: int| 0 <= k < members@.len() && members@[k] == t as usize;
            assert(!m.step_matches(members@[k] as nat, text, pos));
        }
    }
    MatchResult::NoMatch
}

/// Tries every transition of state `t` that reads the character at the
/// cursor and does not lead into `closure`, the epsilon closure of `t`:
/// a destination that accepts is a match; otherwise the cursor moves on, the
/// search goes on from the destination, and the cursor is put back if that
/// finds nothing.
fn consume_from(nfa: &NFA, t: usize, closure: &HashSet<usize>, input: &mut InputWithIndex) -> (r:
    MatchResult)
    requires
        nfa@.well_formed(),
        nfa@.has_state(t as nat),
        forall|b: usize| closure@.contains(b) <==> nfa@.eps_reachable(t as nat, b as nat),
        old(input).position() < old(input).text().len(),
    ensures
        (r == MatchResult::Match) == nfa@.step_matches(
            t as nat,
            old(input).text(),
            old(input).position(),
        ),
        final(input).text() == old(input).text(),
        r == MatchResult::NoMatch ==> final(input).position() == old(input).position(),
        old(input).position() <= final(input).position() <= old(input).text().len(),
    decreases old(input).text().len() - old(input).position(), 0nat,
{
    broadcast use vstd::std_specs::hash::group_hash_axioms;

    let ghost m = nfa@;
    let ghost text = input.text();
    let ghost pos = input.position();
    let c: char = match input.peek() {
        Some(c) => c,
        None => {
            return MatchResult::NoMatch;
        },
    };
    let state: &State = match nfa.state(t) {
        Some(state) => state,
        None => {
            return MatchResult::NoMatch;
        },
    };
    let n: usize = state.transition_count();
    let mut i: usize = 0;
    while i < n
        invariant
            i <= n,
            n == state.edge_list().len(),
            m == nfa@,
            m.well_formed(),
            nfa.table().contains_key(t),
            *state == nfa.table()[t],
            forall|b: usize| closure@.contains(b) <==> m.eps_reachable(t as nat, b as nat),
            input.text() == text,
            input.position() == pos,
            text == old(input).text(),
            pos == old(input).position(),
            pos < text.len(),
            text.len() <= usize::MAX,
            c == text[pos as int],
            forall|j: int|
                0 <= j < i ==> {
                    let e = #[trigger] state.edge_list()[j];
                    e.0.reads(c) && !m.eps_reachable(t as nat, e.1 as nat) ==> !m.accepting(
                        e.1 as nat,
                    ) && !m.accepts_from(e.1 as nat, text, pos + 1)
                },
        decreases n - i,
    {
        let e = state.transition(i);
        if e.0.can_read(c) && !closure.contains(&e.1) {
            let next_state_id: usize = e.1;
            proof {
                assert(state.edge_list().contains((e.0, e.1)));
                assert(m.edge(t as nat, e.0, next_state_id as nat));
                assert(m.has_state(next_state_id as nat));
                assert(m.consumes(t as nat, c, next_state_id as nat));
            }
            let accepting: bool = match nfa.state(next_state_id) {
                Some(next_state) => next_state.is_accept(),
                None => false,
            };
            if accepting {
                return MatchResult::Match;
            }
            let current_index: usize = input.index();
            input.next();
            match _match_nfa(nfa, next_state_id, input) {
                MatchResult::Match => {
                    return MatchResult::Match;
                },
                MatchResult::NoMatch => {
                    input.set_index(current_index);
                },
            }
        }
        i += 1;
    }
    proof {
        assert forall|d: nat| #[trigger] m.consumes(t as nat, c, d) implies !(m.accepting(d)
            || m.accepts_from(d, text, pos + 1)) by {
            let l = nfa.lemma_edge_is_listed(t, c, d);
            let j = choose|j: int|
                0 <= j < state.edge_list().len() && state.edge_list()[j] == (l, d as usize);
            assert(state.edge_list()[j].0.reads(c));
        }
    }
    MatchResult::NoMatch
}

/// Decides whether the automaton accepts `input`.
///
/// The search cannot be run on an automaton that is not well formed; on a
/// well-formed one it always gives an answer.
pub fn match_nfa(nfa: &NFA, input: &str) -> (r: Result<bool, MatchError>)
    ensures
        r == if nfa@.well_formed() {
            Ok::<bool, MatchError>(nfa@.accepts(input@))
        } else {
            Err::<bool, MatchError>(MatchError::MalformedAutomaton)
        },
{
    if !nfa.is_well_formed() {
        return Err(MatchError::MalformedAutomaton);
    }
    let entry_accepts: bool = match nfa.state(nfa.start_id()) {
        Some(state) => state.is_accept(),
        None => false,
    };
    if entry_accepts {
        return Ok(true);
    }
    let mut cursor = InputWithIndex::new(input);
    let result = _match_nfa(nfa, nfa.start_id(), &mut cursor);
    match result {
        MatchResult::Match => Ok(true),
        MatchResult::NoMatch => Ok(false),
    }
}

} // verus!
