//! Rendering an automaton as a directed graph in the DOT language.
//!
//! States are written in rising order of their identifiers, and the
//! transitions of a state in the order in which they were added.
use crate::nfa::{Label, State, NFA};
use vstd::prelude::*;

verus! {

/// The character for a digit.
pub open spec fn digit_char(d: nat) -> char {
    if d == 0 {
        '0'
    } else if d == 1 {
        '1'
    } else if d == 2 {
        '2'
    } else if d == 3 {
        '3'
    } else if d == 4 {
        '4'
    } else if d == 5 {
        '5'
    } else if d == 6 {
        '6'
    } else if d == 7 {
        '7'
    } else if d == 8 {
        '8'
    } else {
        '9'
    }
}

/// The number `n` in decimal, without leading zeros.
pub open spec fn decimal(n: nat) -> Seq<char>
    decreases n,
{
    if n < 10 {
        seq![digit_char(n)]
    } else {
        decimal(n / 10).push(digit_char(n % 10))
    }
}

/// The text that stands for a label. A character stands for itself, a
/// small epsilon stands for the epsilon label, and the word `any` for the
/// wildcard. The one character that would read as the epsilon label, the
/// small epsilon itself, is written behind a backslash. No two labels have
/// the same text.
pub open spec fn label_text(label: Label) -> Seq<char> {
    match label {
        Label::Epsilon => seq!['\u{3b5}'],
        Label::Any => seq!['a', 'n', 'y'],
        Label::Char(c) => if c == '\u{3b5}' {
            seq!['\\', c]
        } else {
            seq![c]
        },
    }
}

/// Two labels with the same text are the same label.
pub proof fn lemma_label_text_distinct(a: Label, b: Label)
    requires
        label_text(a) == label_text(b),
    ensures
        a == b,
{
    let s = label_text(a);
    let t = label_text(b);
    assert(s.len() == t.len());
    assert(s[0] == t[0]);
    if s.len() == 2 {
        assert(s[1] == t[1]);
    }
}

/// The line for one transition.
pub open spec fn edge_line(from: usize, edge: (Label, usize)) -> Seq<char> {
    "\t"@ + decimal(from as nat) + " -> "@ + decimal(edge.1 as nat) + " [label=\""@ + label_text(
        edge.0,
    ) + "\"]\n"@
}

/// The lines for the first `k` transitions of `state`.
pub open spec fn state_lines(state: State, k: nat) -> Seq<char>
    decreases k,
{
    if k == 0 || k > state.edge_list().len() {
        Seq::empty()
    } else {
        state_lines(state, (k - 1) as nat) + edge_line(
            state.spec_id(),
            state.edge_list()[k - 1],
        )
    }
}

/// The lines for all transitions of the first `k` states of `order`.
pub open spec fn all_lines(table: Map<usize, State>, order: Seq<usize>, k: nat) -> Seq<char>
    decreases k,
{
    if k == 0 || k > order.len() {
        Seq::empty()
    } else {
        let state = table[order[k - 1]];
        all_lines(table, order, (k - 1) as nat) + state_lines(state, state.edge_list().len())
    }
}

/// The identifiers of the accepting states among the first `k` states of
/// `order`, with one space between two of them.
pub open spec fn accept_list(table: Map<usize, State>, order: Seq<usize>, k: nat) -> Seq<char>
    decreases k,
{
    if k == 0 || k > order.len() {
        Seq::empty()
    } else {
        let before = accept_list(table, order, (k - 1) as nat);
        let state = table[order[k - 1]];
        if !state.spec_is_accept() {
            before
        } else if before.len() == 0 {
            decimal(state.spec_id() as nat)
        } else {
            before + " "@ + decimal(state.spec_id() as nat)
        }
    }
}

/// The body of the graph for the states in the given order.
pub open spec fn dot_body(table: Map<usize, State>, order: Seq<usize>) -> Seq<char> {
    "\trankdir=LR\n"@ + "\tnode [shape=doublecircle]; "@ + accept_list(table, order, order.len())
        + ";\n"@ + "\tnode [shape=circle];\n"@ + all_lines(table, order, order.len())
}

/// The graph for the states in the given order.
pub open spec fn dot_text(table: Map<usize, State>, order: Seq<usize>) -> Seq<char> {
    "digraph finite_state_machine {\n"@ + dot_body(table, order) + "\n}"@
}

/// Every element is smaller than all behind it.
pub open spec fn rising(s: Seq<usize>) -> bool {
    forall|i: int, j: int| 0 <= i < j < s.len() ==> s[i] < s[j]
}

/// `order` holds the identifiers of all states of the table, each once, in
/// rising order.
pub open spec fn is_rising_order(table: Map<usize, State>, order: Seq<usize>) -> bool {
    rising(order) && order.to_set() == table.dom()
}

/// The character for a digit.
fn digit(d: usize) -> (c: char)
    requires
        d < 10,
    ensures
        c == digit_char(d as nat),
{
    if d == 0 {
        '0'
    } else if d == 1 {
        '1'
    } else if d == 2 {
        '2'
    } else if d == 3 {
        '3'
    } else if d == 4 {
        '4'
    } else if d == 5 {
        '5'
    } else if d == 6 {
        '6'
    } else if d == 7 {
        '7'
    } else if d == 8 {
        '8'
    } else {
        '9'
    }
}

/// Appends `n` in decimal.
fn push_decimal(text: &mut String, n: usize)
    ensures
        final(text)@ == old(text)@ + decimal(n as nat),
    decreases n,
{
    if n >= 10 {
        push_decimal(text, n / 10);
    }
    text.push(digit(n % 10));
    proof {
        if n >= 10 {
            assert(old(text)@ + decimal(n as nat) =~= (old(text)@ + decimal((n / 10) as nat)).push(
                digit_char((n % 10) as nat),
            ));
        } else {
            assert(old(text)@ + decimal(n as nat) =~= old(text)@.push(digit_char(n as nat)));
        }
    }
}

/// Appends `label_text`.
fn push_label(text: &mut String, label: Label)
    ensures
        final(text)@ == old(text)@ + label_text(label),
{
    match label {
        Label::Epsilon => {
            text.push('\u{3b5}');
        },
        Label::Any => {
            text.push('a');
            text.push('n');
            text.push('y');
        },
        Label::Char(c) => {
            if c == '\u{3b5}' {
                text.push('\\');
            }
            text.push(c);
        },
    }
    assert(text@ =~= old(text)@ + label_text(label));
}

/// Appends the line for one transition.
fn push_edge_line(text: &mut String, from: usize, edge: (Label, usize))
    ensures
        final(text)@ == old(text)@ + edge_line(from, edge),
{
    text.append("\t");
    push_decimal(text, from);
    text.append(" -> ");
    push_decimal(text, edge.1);
    text.append(" [label=\"");
    push_label(text, edge.0);
    text.append("\"]\n");
    assert(text@ =~= old(text)@ + edge_line(from, edge));
}

/// The elements of `ids` in rising order, each once.
fn ascending(ids: &Vec<usize>) -> (sorted: Vec<usize>)
    ensures
        rising(sorted@),
        sorted@.to_set() == ids@.to_set(),
{
    let mut sorted: Vec<usize> = Vec::new();
    loop
        invariant
            rising(sorted@),
            forall|i: int| 0 <= i < sorted@.len() ==> ids@.contains(#[trigger] sorted@[i]),
            forall|j: int|
                0 <= j < ids@.len() && sorted@.len() > 0 && (#[trigger] ids@[j]) <= sorted@.last()
                    ==> sorted@.contains(ids@[j]),
        decreases
                (if sorted@.len() == 0 {
                    usize::MAX + 1
                } else {
                    usize::MAX - sorted@.last()
                }),
    {
        let mut best: Option<usize> = None;
        let mut j: usize = 0;
        while j < ids.len()
            invariant
                j <= ids@.len(),
                best matches Some(b) ==> ids@.contains(b) && (sorted@.len() > 0 ==> b
                    > sorted@.last()),
                forall|m: int|
                    0 <= m < j && (sorted@.len() > 0 ==> (#[trigger] ids@[m]) > sorted@.last())
                        ==> best is Some && best->Some_0 <= ids@[m],
            decreases ids@.len() - j,
        {
            let x: usize = ids[j];
            let fresh: bool = sorted.len() == 0 || x > sorted[sorted.len() - 1];
            if fresh {
                let better: bool = match best {
                    None => true,
                    Some(b) => x < b,
                };
                if better {
                    best = Some(x);
                }
            }
            j += 1;
        }
        match best {
            None => {
                proof {
                    assert forall|x: usize| ids@.contains(x) implies sorted@.contains(x) by {
                        let m = choose|m: int| 0 <= m < ids@.len() && ids@[m] == x;
                        assert(ids@[m] == x);
                    }
                    assert(sorted@.to_set() =~= ids@.to_set());
                }
                return sorted;
            },
            Some(next) => {
                let ghost before = sorted@;
                sorted.push(next);
                proof {
                    assert forall|j: int|
                        0 <= j < ids@.len() && (#[trigger] ids@[j]) <= sorted@.last()
                        implies sorted@.contains(ids@[j]) by {
                        if before.len() > 0 && ids@[j] <= before.last() {
                            let i = choose|i: int| 0 <= i < before.len() && before[i] == ids@[j];
                            assert(sorted@[i] == ids@[j]);
                        } else {
                            assert(ids@[j] == next);
                            assert(sorted@[sorted@.len() - 1] == next);
                        }
                    }
                }
            },
        }
    }
}

impl NFA {
    /// The automaton as a graph in the DOT language: the accepting states
    /// as double circles, the others as circles, and one labelled edge for
    /// each transition.
    pub fn to_dot(&self) -> (text: String)
        ensures
            exists|order: Seq<usize>|
                is_rising_order(self.table(), order) && text@ == #[trigger] dot_text(
                    self.table(),
                    order,
                ),
    {
        let mut text = String::from_str("digraph finite_state_machine {\n");
        let body = self.to_dot_body();
        text.append(body.as_str());
        text.append("\n}");
        proof {
            let order = choose|order: Seq<usize>|
                is_rising_order(self.table(), order) && body@ == #[trigger] dot_body(
                    self.table(),
                    order,
                );
            assert(text@ == dot_text(self.table(), order));
        }
        text
    }

    /// The body of the graph: the layout, the node shapes, and the edges.
    fn to_dot_body(&self) -> (body: String)
        ensures
            exists|order: Seq<usize>|
                is_rising_order(self.table(), order) && body@ == #[trigger] dot_body(
                    self.table(),
                    order,
                ),
    {
        let ids: Vec<usize> = self.state_ids();
        let order: Vec<usize> = ascending(&ids);
        let ghost table = self.table();

        let mut accept_states = String::new();
        let mut k: usize = 0;
        while k < order.len()
            invariant
                k <= order@.len(),
                table == self.table(),
                order@.to_set() == table.dom(),
                accept_states@ == accept_list(table, order@, k as nat),
            decreases order@.len() - k,
        {
            proof {
                assert(order@.to_set().contains(order@[k as int]));
            }
            match self.state(order[k]) {
                Some(state) => {
                    if state.is_accept() {
                        if accept_states.as_str().unicode_len() > 0 {
                            accept_states.append(" ");
                        }
                        push_decimal(&mut accept_states, state.id());
                    }
                },
                None => {},
            }
            k += 1;
        }

        let mut body = String::from_str("\trankdir=LR\n");
        body.append("\tnode [shape=doublecircle]; ");
        body.append(accept_states.as_str());
        body.append(";\n");
        body.append("\tnode [shape=circle];\n");
        let ghost head = body@;
        let mut k: usize = 0;
        while k < order.len()
            invariant
                k <= order@.len(),
                table == self.table(),
                order@.to_set() == table.dom(),
                body@ == head + all_lines(table, order@, k as nat),
            decreases order@.len() - k,
        {
            proof {
                assert(order@.to_set().contains(order@[k as int]));
            }
            match self.state(order[k]) {
                Some(state) => {
                    let ghost start = body@;
                    let n: usize = state.transition_count();
                    let mut i: usize = 0;
                    while i < n
                        invariant
                            i <= n,
                            n == state.edge_list().len(),
                            body@ == start + state_lines(*state, i as nat),
                        decreases n - i,
                    {
                        push_edge_line(&mut body, state.id(), state.transition(i));
                        i += 1;
                        assert(body@ =~= start + state_lines(*state, i as nat));
                    }
                    assert(body@ =~= head + all_lines(table, order@, (k + 1) as nat));
                },
                None => {},
            }
            k += 1;
        }
        proof {
            assert(is_rising_order(table, order@));
            assert(body@ == dot_body(table, order@));
        }
        body
    }
}

} // verus!
