//! The automata as text: graph descriptions, a right-linear grammar and a
//! transition table.
use crate::dense::{DenseDFA, DenseModel};
use crate::dfa::{DfaModel, State01, DFA01};
use crate::nfa::{NfaModel, State, StateModel, NFA};
use crate::text::{decimal, push_number, push_symbol, push_text};
use vstd::prelude::*;

verus! {

broadcast use vstd::std_specs::hash::group_hash_axioms;

/// `acc` and then one line for each of `ids`: the id and a semicolon.
pub open spec fn with_accept_lines(acc: Seq<char>, ids: Seq<u32>) -> Seq<char>
    decreases ids.len(),
{
    if ids.len() == 0 {
        acc
    } else {
        with_accept_lines(acc, ids.drop_last()) + decimal(ids.last() as nat) + ";\n"@
    }
}

/// `acc` and then one line for each epsilon move of state `id`.
pub open spec fn with_epsilon_edges(acc: Seq<char>, id: nat, targets: Seq<u32>) -> Seq<char>
    decreases targets.len(),
{
    if targets.len() == 0 {
        acc
    } else {
        with_epsilon_edges(acc, id, targets.drop_last()) + decimal(id) + " -> "@ + decimal(
            targets.last() as nat,
        ) + " [label=\"\u{3b5}\"];\n"@
    }
}

/// `acc` and then one line for each symbol move of state `id`.
pub open spec fn with_symbol_edges(acc: Seq<char>, id: nat, moves: Seq<(u8, u32)>) -> Seq<char>
    decreases moves.len(),
{
    if moves.len() == 0 {
        acc
    } else {
        (with_symbol_edges(acc, id, moves.drop_last()) + decimal(id) + " -> "@ + decimal(
            moves.last().1 as nat,
        ) + " [label=\""@).push(moves.last().0 as char) + "\"];\n"@
    }
}

/// `acc` and then the lines for the moves of the states below `upto`.
pub open spec fn with_state_edges(acc: Seq<char>, states: Seq<StateModel>, upto: int) -> Seq<char>
    decreases upto,
{
    if upto <= 0 {
        acc
    } else {
        let before = with_state_edges(acc, states, upto - 1);
        match states[upto - 1] {
            StateModel::Epsilon(targets) => with_epsilon_edges(before, (upto - 1) as nat, targets),
            StateModel::NonEpsilon(moves) => with_symbol_edges(before, (upto - 1) as nat, moves),
            _ => before,
        }
    }
}

impl NfaModel {
    /// The automaton as a graph description: the accept states drawn with a
    /// double circle, and one edge for each move.
    pub open spec fn dot_text(self) -> Seq<char> {
        with_state_edges(
            with_accept_lines(
                "digraph {\n"@ + "rankdir=LR;\n"@ + "node [shape = doublecircle];\n"@,
                self.accept,
            ) + "node [shape = circle];\n"@,
            self.states,
            self.states.len() as int,
        ) + "}"@
    }
}

impl NFA {
    /// The automaton as a graph description: see [`NfaModel::dot_text`].
    pub fn to_dot(&self) -> (dot: String)
        ensures
            dot@ == self@.dot_text(),
    {
        let mut dot: String = String::new();
        push_text(&mut dot, "digraph {\n");
        push_text(&mut dot, "rankdir=LR;\n");
        push_text(&mut dot, "node [shape = doublecircle];\n");
        let ghost header = "digraph {\n"@ + "rankdir=LR;\n"@ + "node [shape = doublecircle];\n"@;
        assert(dot@ =~= header);
        let accept: &Vec<u32> = self.accepts();
        let mut i: usize = 0;
        while i < accept.len()
            invariant
                i <= accept.len(),
                dot@ == with_accept_lines(header, accept@.take(i as int)),
            decreases accept.len() - i,
        {
            assert(accept@.take(i + 1).drop_last() =~= accept@.take(i as int));
            push_number(&mut dot, accept[i] as u128);
            push_text(&mut dot, ";\n");
            i += 1;
        }
        assert(accept@.take(accept@.len() as int) =~= accept@);
        push_text(&mut dot, "node [shape = circle];\n");
        let ghost middle = dot@;
        let states: &Vec<State> = self.get_states_iter();
        let mut id: usize = 0;
        while id < states.len()
            invariant
                id <= states.len(),
                states@.len() == self@.states.len(),
                forall|i: int| 0 <= i < states@.len() ==> (#[trigger] states@[i])@ == self@.states[i],
                dot@ == with_state_edges(middle, self@.states, id as int),
            decreases states.len() - id,
        {
            let ghost before = dot@;
            assert(states@[id as int]@ == self@.states[id as int]);
            match &states[id] {
                State::Epsilon(trans) => {
                    let targets: &Vec<u32> = trans.iter();
                    let mut k: usize = 0;
                    while k < targets.len()
                        invariant
                            k <= targets.len(),
                            dot@ == with_epsilon_edges(before, id as nat, targets@.take(k as int)),
                        decreases targets.len() - k,
                    {
                        assert(targets@.take(k + 1).drop_last() =~= targets@.take(k as int));
                        push_number(&mut dot, id as u128);
                        push_text(&mut dot, " -> ");
                        push_number(&mut dot, targets[k] as u128);
                        push_text(&mut dot, " [label=\"\u{3b5}\"];\n");
                        k += 1;
                    }
                    assert(targets@.take(targets@.len() as int) =~= targets@);
                },
                State::NonEpsilon(trans) => {
                    let moves: &Vec<(u8, u32)> = trans.iter();
                    let mut k: usize = 0;
                    while k < moves.len()
                        invariant
                            k <= moves.len(),
                            dot@ == with_symbol_edges(before, id as nat, moves@.take(k as int)),
                        decreases moves.len() - k,
                    {
                        assert(moves@.take(k + 1).drop_last() =~= moves@.take(k as int));
                        push_number(&mut dot, id as u128);
                        push_text(&mut dot, " -> ");
                        push_number(&mut dot, moves[k].1 as u128);
                        push_text(&mut dot, " [label=\"");
                        push_symbol(&mut dot, moves[k].0);
                        push_text(&mut dot, "\"];\n");
                        k += 1;
                    }
                    assert(moves@.take(moves@.len() as int) =~= moves@);
                },
                _ => {},
            }
            id += 1;
        }
        push_text(&mut dot, "}");
        dot
    }
}

impl DfaModel {
    /// The id of the state at place `i` among the states in ascending
    /// order.
    pub open spec fn id_at(self, i: int) -> u128 {
        choose|id: u128| self.states.contains_key(id) && self.rank(id) == i
    }
}

/// `acc` and then one line for each accept state among the first `upto`
/// states.
pub open spec fn with_sparse_accept(acc: Seq<char>, m: DfaModel, upto: int) -> Seq<char>
    decreases upto,
{
    if upto <= 0 {
        acc
    } else if m.accept.contains(m.id_at(upto - 1)) {
        with_sparse_accept(acc, m, upto - 1) + decimal(m.id_at(upto - 1) as nat) + ";\n"@
    } else {
        with_sparse_accept(acc, m, upto - 1)
    }
}

/// `acc` and then the edge of `from` on the symbol with the text `label`,
/// unless it leads to the empty set.
pub open spec fn with_sparse_edge(acc: Seq<char>, from: u128, to: u128, label: Seq<char>) -> Seq<
    char,
> {
    if to == 0 {
        acc
    } else {
        acc + decimal(from as nat) + " -> "@ + decimal(to as nat) + " [label = \""@ + label
            + "\"];\n"@
    }
}

/// `acc` and then the edges of the first `upto` states.
pub open spec fn with_sparse_edges(acc: Seq<char>, m: DfaModel, upto: int) -> Seq<char>
    decreases upto,
{
    if upto <= 0 {
        acc
    } else {
        let id = m.id_at(upto - 1);
        with_sparse_edge(
            with_sparse_edge(with_sparse_edges(acc, m, upto - 1), id, m.states[id].0, "0"@),
            id,
            m.states[id].1,
            "1"@,
        )
    }
}

impl DfaModel {
    /// The automaton as a graph description: the accept states drawn with a
    /// double circle, and one edge for each move that does not lead to the
    /// empty set; the states in the ascending order of their ids.
    pub open spec fn dot_text(self) -> Seq<char> {
        with_sparse_edges(
            with_sparse_accept(
                "digraph DFA {\n"@ + "rankdir=LR;\n"@ + "node [shape = doublecircle];\n"@,
                self,
                self.states.len() as int,
            ) + "node [shape = circle];\n"@,
            self,
            self.states.len() as int,
        ) + "}\n"@
    }
}

/// Appends the edge of `from` on the symbol with the text `label` to `dot`,
/// unless it leads to the empty set.
fn push_sparse_edge(dot: &mut String, from: u128, to: u128, label: &str)
    ensures
        final(dot)@ == with_sparse_edge(old(dot)@, from, to, label@),
{
    if to != 0 {
        push_number(dot, from);
        push_text(dot, " -> ");
        push_number(dot, to);
        push_text(dot, " [label = \"");
        push_text(dot, label);
        push_text(dot, "\"];\n");
    }
}

impl DFA01 {
    /// The automaton as a graph description: see [`DfaModel::dot_text`].
    pub fn to_dot(&self) -> (dot: String)
        ensures
            dot@ == self@.dot_text(),
    {
        let entries: Vec<(u128, State01)> = self.states_with_id_iter();
        let accept = self.accept_states();
        let ghost m = self@;
        proof {
            assert forall|i: int| 0 <= i < entries@.len() implies m.id_at(i) == (
            #[trigger] entries@[i]).0 by {
                let id = m.id_at(i);
                assert(m.states.contains_key(entries@[i].0) && m.rank(entries@[i].0) == i);
                assert(entries@[m.rank(id) as int].0 == id);
            }
        }
        let mut dot: String = String::new();
        push_text(&mut dot, "digraph DFA {\n");
        push_text(&mut dot, "rankdir=LR;\n");
        push_text(&mut dot, "node [shape = doublecircle];\n");
        let ghost header = "digraph DFA {\n"@ + "rankdir=LR;\n"@
            + "node [shape = doublecircle];\n"@;
        assert(dot@ =~= header);
        let mut i: usize = 0;
        while i < entries.len()
            invariant
                i <= entries.len(),
                m == self@,
                accept@ == m.accept,
                entries@.len() == m.states.len(),
                forall|i: int| 0 <= i < entries@.len() ==> m.id_at(i) == (#[trigger] entries@[i]).0,
                dot@ == with_sparse_accept(header, m, i as int),
            decreases entries.len() - i,
        {
            let id: u128 = entries[i].0;
            assert(m.id_at(i as int) == entries@[i as int].0);
            if accept.contains(&id) {
                push_number(&mut dot, id);
                push_text(&mut dot, ";\n");
            }
            i += 1;
        }
        push_text(&mut dot, "node [shape = circle];\n");
        let ghost middle = dot@;
        let mut i: usize = 0;
        while i < entries.len()
            invariant
                i <= entries.len(),
                m == self@,
                entries@.len() == m.states.len(),
                forall|i: int| 0 <= i < entries@.len() ==> m.id_at(i) == (#[trigger] entries@[i]).0,
                forall|i: int|
                    0 <= i < entries@.len() ==> m.states.contains_key((#[trigger] entries@[i]).0)
                        && m.states[entries@[i].0] == entries@[i].1@,
                dot@ == with_sparse_edges(middle, m, i as int),
            decreases entries.len() - i,
        {
            let id: u128 = entries[i].0;
            let moves: (u128, u128) = entries[i].1.transitions();
            assert(m.id_at(i as int) == entries@[i as int].0);
            assert(m.states[entries@[i as int].0] == entries@[i as int].1@);
            push_sparse_edge(&mut dot, id, moves.0, "0");
            push_sparse_edge(&mut dot, id, moves.1, "1");
            i += 1;
        }
        push_text(&mut dot, "}\n");
        dot
    }

    /// The automaton as a graph description: see [`DfaModel::dot_text`].
    pub fn call_to_dot(&self) -> (dot: String)
        ensures
            dot@ == self@.dot_text(),
    {
        self.to_dot()
    }
}

/// `acc` and then one line for each accept state below `upto`.
pub open spec fn with_dense_accept(acc: Seq<char>, m: DenseModel, upto: int) -> Seq<char>
    decreases upto,
{
    if upto <= 0 {
        acc
    } else if m.accept.contains((upto - 1) as u128) {
        with_dense_accept(acc, m, upto - 1) + decimal((upto - 1) as nat) + ";\n"@
    } else {
        with_dense_accept(acc, m, upto - 1)
    }
}

/// `acc` and then the edges of state `s` in the columns below `upto`; the
/// trap has no edges, and no edge leads to it.
pub open spec fn with_dense_row(acc: Seq<char>, m: DenseModel, s: int, upto: int) -> Seq<char>
    decreases upto,
{
    if upto <= 0 {
        acc
    } else if s == 0 || m.at(s, upto - 1) == 0 {
        with_dense_row(acc, m, s, upto - 1)
    } else {
        (with_dense_row(acc, m, s, upto - 1) + decimal(s as nat) + " -> "@ + decimal(
            m.at(s, upto - 1) as nat,
        ) + " [label = \""@).push(m.alphabet[upto - 1] as char) + "\"];\n"@
    }
}

/// `acc` and then the edges of the states below `upto`.
pub open spec fn with_dense_edges(acc: Seq<char>, m: DenseModel, upto: int) -> Seq<char>
    decreases upto,
{
    if upto <= 0 {
        acc
    } else {
        with_dense_row(with_dense_edges(acc, m, upto - 1), m, upto - 1, m.alphabet.len() as int)
    }
}

/// `text` and then `piece`, with a bar between the two if `text` is not
/// empty.
pub open spec fn joined(text: Seq<char>, piece: Seq<char>) -> Seq<char> {
    if text.len() == 0 {
        piece
    } else {
        text + "|"@ + piece
    }
}

impl DenseModel {
    /// State `s` leads to the trap in every column.
    pub open spec fn no_way_out(self, s: u128) -> bool {
        forall|k: int| 0 <= k < self.stride() ==> #[trigger] self.at(s as int, k) == 0
    }

    /// The automaton as a graph description: the accept states drawn with a
    /// double circle, and one edge for each move between states other than
    /// the trap.
    pub open spec fn dot_text(self) -> Seq<char> {
        with_dense_edges(
            with_dense_accept(
                "digraph DFA {\n"@ + "rankdir=LR;\n"@ + "node [shape = doublecircle];\n"@,
                self,
                self.states as int,
            ) + "node [shape = circle];\n"@,
            self,
            self.states as int,
        ) + "}\n"@
    }

    /// The alternatives of the rule for state `from` that the columns below
    /// `upto` give: the symbol alone if the move leads to an accept state,
    /// and the symbol with the successor unless the successor is the trap
    /// or leads to the trap only.
    pub open spec fn alternatives(self, from: int, upto: int) -> Seq<char>
        decreases upto,
    {
        if upto <= 0 {
            Seq::empty()
        } else {
            let before = self.alternatives(from, upto - 1);
            let to = self.at(from, upto - 1);
            let symbol = self.alphabet[upto - 1] as char;
            let ended = if self.accept.contains(to) {
                joined(before, " "@.push(symbol) + " "@)
            } else {
                before
            };
            if to == 0 || self.no_way_out(to) {
                ended
            } else {
                joined(ended, " "@.push(symbol) + "q"@ + decimal(to as nat) + " "@)
            }
        }
    }

    /// `acc` and then the rules of the states from 1 up to `upto`; a state
    /// without alternatives has no rule.
    pub open spec fn with_rules(self, acc: Seq<char>, upto: int) -> Seq<char>
        decreases upto,
    {
        if upto <= 1 {
            acc
        } else {
            let before = self.with_rules(acc, upto - 1);
            let right = self.alternatives(upto - 1, self.alphabet.len() as int);
            if right.len() == 0 {
                before
            } else {
                before + "q"@ + decimal((upto - 1) as nat) + " ->"@ + right + "\n"@
            }
        }
    }

    /// The right-linear grammar of the automaton: the start rule and then
    /// the rules of the states other than the trap.
    pub open spec fn rg_text(self) -> Seq<char> {
        self.with_rules(
            "S -> q"@ + decimal(self.start->Some_0 as nat) + "\n"@,
            self.states as int,
        )
    }
}

/// Appends `piece` to `text`, after a bar if `text` is not empty.
fn push_joined(text: &mut String, any: &mut bool, piece: &String)
    requires
        *old(any) == (old(text)@.len() > 0),
        piece@.len() > 0,
    ensures
        final(text)@ == joined(old(text)@, piece@),
        *final(any),
        final(text)@.len() > 0,
{
    if *any {
        push_text(text, "|");
    }
    push_text(text, piece.as_str());
    *any = true;
    assert(text@ =~= joined(old(text)@, piece@));
}

impl DenseDFA {
    /// The automaton as a graph description: see [`DenseModel::dot_text`].
    pub fn to_dot(&self) -> (dot: String)
        requires
            self.wf(),
        ensures
            dot@ == self@.dot_text(),
    {
        let ghost m = self@;
        proof {
            self.lemma_wf();
            crate::dense::lemma_bits_from(m.alphabet.len(), 0);
        }
        let n: u128 = self.number_of_states();
        let accept = self.accept_states();
        let alphabet: &Vec<u8> = self.alphabet();
        let mut dot: String = String::new();
        push_text(&mut dot, "digraph DFA {\n");
        push_text(&mut dot, "rankdir=LR;\n");
        push_text(&mut dot, "node [shape = doublecircle];\n");
        let ghost header = "digraph DFA {\n"@ + "rankdir=LR;\n"@
            + "node [shape = doublecircle];\n"@;
        assert(dot@ =~= header);
        let mut s: u128 = 0;
        while s < n
            invariant
                s <= n,
                accept@ == m.accept,
                dot@ == with_dense_accept(header, m, s as int),
            decreases n - s,
        {
            if accept.contains(&s) {
                push_number(&mut dot, s);
                push_text(&mut dot, ";\n");
            }
            s += 1;
        }
        push_text(&mut dot, "node [shape = circle];\n");
        let ghost middle = dot@;
        let mut s: u128 = 0;
        while s < n
            invariant
                s <= n,
                n == m.states,
                m == self@,
                self.wf(),
                m.wf(),
                alphabet@ == m.alphabet,
                m.alphabet.len() <= m.stride(),
                dot@ == with_dense_edges(middle, m, s as int),
            decreases n - s,
        {
            let ghost before = dot@;
            let mut k: usize = 0;
            while k < alphabet.len()
                invariant
                    k <= alphabet.len(),
                    s < n,
                    n == m.states,
                    m == self@,
                    self.wf(),
                    m.wf(),
                    alphabet@ == m.alphabet,
                    m.alphabet.len() <= m.stride(),
                    dot@ == with_dense_row(before, m, s as int, k as int),
                decreases alphabet.len() - k,
            {
                proof {
                    crate::dense::lemma_cell_in_table(
                        s as int,
                        k as int,
                        m.states as int,
                        m.stride() as int,
                    );
                }
                let stride: usize = self.stride();
                let to: u128 = self.delta_by_tran_index((s as usize) * stride + k);
                if s != 0 && to != 0 {
                    push_number(&mut dot, s);
                    push_text(&mut dot, " -> ");
                    push_number(&mut dot, to);
                    push_text(&mut dot, " [label = \"");
                    push_symbol(&mut dot, alphabet[k]);
                    push_text(&mut dot, "\"];\n");
                }
                k += 1;
            }
            s += 1;
        }
        push_text(&mut dot, "}\n");
        dot
    }

    /// The automaton as a graph description: see [`DenseModel::dot_text`].
    pub fn call_to_dot(&self) -> (dot: String)
        requires
            self.wf(),
        ensures
            dot@ == self@.dot_text(),
    {
        self.to_dot()
    }

    /// The right-linear grammar of the automaton: see
    /// [`DenseModel::rg_text`].
    pub fn to_rg(&self) -> (rg: String)
        requires
            self.wf(),
            self@.closed(),
        ensures
            rg@ == self@.rg_text(),
    {
        let ghost m = self@;
        proof {
            self.lemma_wf();
        }
        let n: u128 = self.number_of_states();
        let accept = self.accept_states();
        let alphabet: &Vec<u8> = self.alphabet();
        let mut rg: String = String::new();
        push_text(&mut rg, "S -> q");
        push_number(&mut rg, self.start_state());
        push_text(&mut rg, "\n");
        let ghost header = "S -> q"@ + decimal(m.start->Some_0 as nat) + "\n"@;
        assert(rg@ =~= header);
        let mut from: u128 = 1;
        while from < n
            invariant
                1 <= from,
                from <= n || n == 0,
                n == m.states,
                m == self@,
                self.wf(),
                m.closed(),
                accept@ == m.accept,
                alphabet@ == m.alphabet,
                rg@ == m.with_rules(header, from as int),
            decreases n - from,
        {
            let mut candidate: String = String::new();
            let mut any: bool = false;
            let mut k: usize = 0;
            while k < alphabet.len()
                invariant
                    k <= alphabet.len(),
                    from < n,
                    n == m.states,
                    m == self@,
                    self.wf(),
                    m.closed(),
                    accept@ == m.accept,
                    alphabet@ == m.alphabet,
                    any == (candidate@.len() > 0),
                    candidate@ == m.alternatives(from as int, k as int),
                decreases alphabet.len() - k,
            {
                let to: u128 = crate::minimize::successor(self, from, k);
                let input: u8 = alphabet[k];
                if accept.contains(&to) {
                    let mut piece: String = String::new();
                    push_text(&mut piece, " ");
                    push_symbol(&mut piece, input);
                    push_text(&mut piece, " ");
                    assert(piece@ =~= " "@.push(input as char) + " "@);
                    push_joined(&mut candidate, &mut any, &piece);
                }
                if to != 0 && !self.is_no_way_out(to) {
                    let mut piece: String = String::new();
                    push_text(&mut piece, " ");
                    push_symbol(&mut piece, input);
                    push_text(&mut piece, "q");
                    push_number(&mut piece, to);
                    push_text(&mut piece, " ");
                    assert(piece@ =~= " "@.push(input as char) + "q"@ + decimal(to as nat) + " "@);
                    push_joined(&mut candidate, &mut any, &piece);
                }
                k += 1;
            }
            if any {
                push_text(&mut rg, "q");
                push_number(&mut rg, from);
                push_text(&mut rg, " ->");
                push_text(&mut rg, candidate.as_str());
                push_text(&mut rg, "\n");
            }
            from += 1;
        }
        proof {
            if n == 0 {
                assert(m.with_rules(header, 1) == m.with_rules(header, 0));
            }
        }
        rg
    }
}

} // verus!
