//! Nondeterministic finite automata whose states either carry epsilon moves
//! or symbol moves, never both.
use crate::graph::{
    closed_under, contains_id, lemma_closed_holds_reachable, lemma_distinct_below,
    lemma_drop_last_contains, lemma_push_contains, lemma_push_no_duplicates, lemma_reaches_self,
    lemma_reaches_step,
    members_of, merge_moves, push_unseen, reaches, set_of,
};
use crate::moves::{group_by_symbol, grouped_by_symbol};
use std::collections::HashSet;
use vstd::prelude::*;

verus! {

broadcast use vstd::std_specs::hash::group_hash_axioms;

/// Mathematical value of a [`State`].
pub enum StateModel {
    Epsilon(Seq<u32>),
    NonEpsilon(Seq<(u8, u32)>),
    Fail,
    Final,
}

/// Mathematical value of an [`NFA`].
pub struct NfaModel {
    pub states: Seq<StateModel>,
    pub alphabet: Set<u8>,
    pub start: Option<u32>,
    pub accept: Seq<u32>,
}

/// The epsilon moves that leave one state, in insertion order.
#[derive(Debug, Clone)]
pub struct EpsilonTrans(Vec<u32>);

/// The symbol moves that leave one state, in insertion order.
#[derive(Debug, Clone)]
pub struct NonEpsilonTrans(Vec<(u8, u32)>);

/// A state is exactly one of four kinds; it never mixes epsilon moves with
/// symbol moves.
#[derive(Debug)]
pub enum State {
    Epsilon(EpsilonTrans),
    NonEpsilon(NonEpsilonTrans),
    /// A state without a way out that rejects.
    Fail,
    /// A state without a way out that accepts.
    Final,
}

impl View for EpsilonTrans {
    type V = Seq<u32>;

    closed spec fn view(&self) -> Seq<u32> {
        self.0@
    }
}

impl View for NonEpsilonTrans {
    type V = Seq<(u8, u32)>;

    closed spec fn view(&self) -> Seq<(u8, u32)> {
        self.0@
    }
}

impl View for State {
    type V = StateModel;

    open spec fn view(&self) -> StateModel {
        match self {
            State::Epsilon(t) => StateModel::Epsilon(t@),
            State::NonEpsilon(t) => StateModel::NonEpsilon(t@),
            State::Fail => StateModel::Fail,
            State::Final => StateModel::Final,
        }
    }
}

impl EpsilonTrans {
    /// The targets, in insertion order.
    pub fn iter(&self) -> (r: &Vec<u32>)
        ensures
            r@ == self@,
    {
        &self.0
    }
}

impl NonEpsilonTrans {
    /// The `(symbol, target)` pairs, in insertion order.
    pub fn iter(&self) -> (r: &Vec<(u8, u32)>)
        ensures
            r@ == self@,
    {
        &self.0
    }
}

impl State {
    /// A state for epsilon moves, without moves yet.
    pub fn new_epsilon() -> (s: State)
        ensures
            s@ == StateModel::Epsilon(Seq::empty()),
    {
        State::Epsilon(EpsilonTrans(Vec::new()))
    }

    /// A state for symbol moves, without moves yet.
    pub fn new_non_epsilon() -> (s: State)
        ensures
            s@ == StateModel::NonEpsilon(Seq::empty()),
    {
        State::NonEpsilon(NonEpsilonTrans(Vec::new()))
    }

    /// A rejecting state without a way out.
    pub fn new_fail() -> (s: State)
        ensures
            s@ == StateModel::Fail,
    {
        State::Fail
    }

    /// An accepting state without a way out.
    pub fn new_final() -> (s: State)
        ensures
            s@ == StateModel::Final,
    {
        State::Final
    }
}

impl StateModel {
    /// The targets of the epsilon moves; none for a state of another kind.
    pub open spec fn eps_targets(self) -> Seq<u32> {
        match self {
            StateModel::Epsilon(t) => t,
            _ => Seq::empty(),
        }
    }

    /// The symbol moves; none for a state of another kind.
    pub open spec fn moves(self) -> Seq<(u8, u32)> {
        match self {
            StateModel::NonEpsilon(t) => t,
            _ => Seq::empty(),
        }
    }
}

impl NfaModel {
    /// State ids fit their type, every move leads to an existing state and
    /// the alphabet holds the symbol of every move.
    pub open spec fn wf(self) -> bool {
        &&& self.states.len() <= u32::MAX
        &&& forall|s: int, k: int|
            0 <= s < self.states.len() && 0 <= k < self.states[s].eps_targets().len() ==> (
            #[trigger] self.states[s].eps_targets()[k]) < self.states.len()
        &&& forall|s: int, k: int|
            0 <= s < self.states.len() && 0 <= k < self.states[s].moves().len() ==> (
            #[trigger] self.states[s].moves()[k]).1 < self.states.len() && self.alphabet.contains(
                self.states[s].moves()[k].0,
            )
    }

    /// The epsilon moves as a graph on the state ids.
    pub open spec fn eps_edge(self) -> spec_fn(int, int) -> bool {
        |a: int, b: int|
            0 <= a < self.states.len() && exists|k: int|
                0 <= k < self.states[a].eps_targets().len()
                    && #[trigger] self.states[a].eps_targets()[k] == b
    }

    /// The epsilon closure of `s`: what epsilon moves alone reach from `s`,
    /// `s` included.
    pub open spec fn closure(self, s: u32) -> Set<u32> {
        Set::new(|t: u32| reaches(self.eps_edge(), s as int, t as int))
    }

    /// State `q` has the symbol move `m`.
    pub open spec fn has_move(self, q: u32, m: (u8, u32)) -> bool {
        q < self.states.len() && self.states[q as int].moves().contains(m)
    }

    /// The symbol moves that leave the epsilon closure of `s`.
    pub open spec fn delta(self, s: u32) -> Set<(u8, u32)> {
        Set::new(|m: (u8, u32)| exists|q: u32| self.closure(s).contains(q) && self.has_move(q, m))
    }

    /// The states of the epsilon closure of `s` that take no epsilon moves.
    pub open spec fn landing(self, s: u32) -> Set<u32> {
        Set::new(
            |t: u32|
                self.closure(s).contains(t) && t < self.states.len() && !(self.states[t as int]
                    is Epsilon),
        )
    }

    /// The moves of `s` once epsilon moves are eliminated: a symbol move out
    /// of the closure of `s`, followed by epsilon moves to a state that takes
    /// none.
    pub open spec fn delta_hat(self, s: u32) -> Set<(u8, u32)> {
        Set::new(
            |m: (u8, u32)|
                exists|t: u32| self.delta(s).contains((m.0, t)) && self.landing(t).contains(m.1),
        )
    }

    /// The symbol moves as a graph on the state ids.
    pub open spec fn move_edge(self) -> spec_fn(int, int) -> bool {
        |a: int, b: int|
            0 <= a < self.states.len() && exists|k: int|
                0 <= k < self.states[a].moves().len() && (#[trigger] self.states[a].moves()[k]).1
                    == b
    }

    /// Symbol moves lead from the start state to `s`.
    pub open spec fn reachable(self, s: u32) -> bool {
        self.start matches Some(s0) && reaches(self.move_edge(), s0 as int, s as int)
    }

    /// Every state that symbol moves do not reach from the start state is
    /// replaced by a rejecting state without a way out.
    pub open spec fn pruned(self) -> NfaModel {
        NfaModel {
            states: Seq::new(
                self.states.len(),
                |i: int|
                    if self.reachable(i as u32) {
                        self.states[i]
                    } else {
                        StateModel::Fail
                    },
            ),
            ..self
        }
    }

    /// Number of states below `i` that are not rejecting states without a way
    /// out: the id that state `i` gets when those are dropped.
    pub open spec fn live_below(self, i: int) -> nat
        decreases i,
    {
        if i <= 0 {
            0
        } else {
            self.live_below(i - 1) + if self.states[i - 1] is Fail {
                0nat
            } else {
                1nat
            }
        }
    }

    /// `s` with the targets of its symbol moves renumbered by `live_below`.
    pub open spec fn renumbered(self, s: StateModel) -> StateModel {
        match s {
            StateModel::NonEpsilon(ts) => StateModel::NonEpsilon(
                ts.map_values(|m: (u8, u32)| (m.0, self.live_below(m.1 as int) as u32)),
            ),
            other => other,
        }
    }

    /// The states below `i` that are kept, renumbered, in their order.
    pub open spec fn compacted_upto(self, i: int) -> Seq<StateModel>
        decreases i,
    {
        if i <= 0 {
            Seq::empty()
        } else if self.states[i - 1] is Fail {
            self.compacted_upto(i - 1)
        } else {
            self.compacted_upto(i - 1).push(self.renumbered(self.states[i - 1]))
        }
    }

    /// The new number of state `id`, if it is a state that is kept.
    pub open spec fn kept_id(self, id: u32) -> Option<u32> {
        if id < self.states.len() && !(self.states[id as int] is Fail) {
            Some(self.live_below(id as int) as u32)
        } else {
            None
        }
    }

    /// The new numbers of those of `ids` that are states that are kept, in
    /// the order of `ids`.
    pub open spec fn kept_ids(self, ids: Seq<u32>) -> Seq<u32>
        decreases ids.len(),
    {
        if ids.len() == 0 {
            Seq::empty()
        } else {
            match self.kept_id(ids.last()) {
                Some(id) => self.kept_ids(ids.drop_last()).push(id),
                None => self.kept_ids(ids.drop_last()),
            }
        }
    }

    /// The rejecting states without a way out are dropped and the others
    /// numbered anew in their order. The start state and the accept states
    /// get their new numbers; one that is dropped, or is no state, is the
    /// start state or an accept state no more.
    pub open spec fn compacted(self) -> NfaModel {
        NfaModel {
            states: self.compacted_upto(self.states.len() as int),
            alphabet: self.alphabet,
            start: match self.start {
                Some(s) => self.kept_id(s),
                None => None,
            },
            accept: self.kept_ids(self.accept),
        }
    }

    /// No state takes epsilon moves or is a rejecting state without a way
    /// out, the start state and the accept states are states, and the start
    /// state reaches every state; an automaton without a start state has no
    /// state.
    pub open spec fn no_state_dropped_or_unreached(self) -> bool {
        &&& forall|j: int|
            0 <= j < self.states.len() ==> !(#[trigger] self.states[j] is Fail) && !(
            self.states[j] is Epsilon)
        &&& self.start matches Some(s) ==> s < self.states.len()
        &&& forall|k: int| 0 <= k < self.accept.len() ==> (#[trigger] self.accept[k])
            < self.states.len()
        &&& forall|j: u32| j < self.states.len() ==> #[trigger] self.reachable(j)
        &&& self.start is None ==> self.states.len() == 0
    }

    /// No symbol move leads to a rejecting state without a way out.
    pub open spec fn no_move_into_fail(self) -> bool {
        forall|s: int, k: int|
            0 <= s < self.states.len() && 0 <= k < self.states[s].moves().len() ==> !(
            self.states[(#[trigger] self.states[s].moves()[k]).1 as int] is Fail)
    }

    /// The epsilon closure of `s` holds an accept state.
    pub open spec fn accepting_closure(self, s: u32) -> bool {
        exists|q: u32| self.closure(s).contains(q) && self.accept.contains(q)
    }

    /// No move is left for `s` once epsilon moves are eliminated.
    pub open spec fn hat_empty(self, s: u32) -> bool {
        forall|m: (u8, u32)| !self.delta_hat(s).contains(m)
    }

    /// `s` becomes a rejecting state without a way out.
    pub open spec fn hat_fail(self, s: u32) -> bool {
        self.hat_empty(s) && !self.accepting_closure(s)
    }

    /// The moves that `s` keeps: those of `delta_hat` that do not lead to a
    /// rejecting state without a way out.
    pub open spec fn hat_moves(self, s: u32) -> Set<(u8, u32)> {
        Set::new(|m: (u8, u32)| self.delta_hat(s).contains(m) && !self.hat_fail(m.1))
    }

    /// `image` is `self` with the epsilon moves eliminated, state by state: a
    /// state without moves accepts if its closure holds an accept state and
    /// rejects otherwise, any other state holds its kept moves in some order.
    /// The alphabet holds the symbols of the kept moves, the start state is
    /// that of `self` and the one accept state is the first of `self`.
    pub open spec fn epsilon_free_image(self, image: NfaModel) -> bool {
        &&& image.states.len() == self.states.len()
        &&& forall|s: u32|
            s < self.states.len() ==> match #[trigger] image.states[s as int] {
                StateModel::Fail => self.hat_fail(s),
                StateModel::Final => self.hat_empty(s) && self.accepting_closure(s),
                StateModel::NonEpsilon(ts) => !self.hat_empty(s) && ts.to_set() == self.hat_moves(
                    s,
                ),
                StateModel::Epsilon(_) => false,
            }
        &&& image.alphabet == Set::new(
            |a: u8|
                exists|s: u32, t: u32|
                    s < self.states.len() && #[trigger] self.hat_moves(s).contains((a, t)),
        )
        &&& image.start == self.start
        &&& image.accept == seq![self.accept[0]]
    }

    /// The automaton without states.
    pub open spec fn empty() -> NfaModel {
        NfaModel { states: Seq::empty(), alphabet: Set::empty(), start: None, accept: Seq::empty() }
    }

    /// `s` is appended as the newest state.
    pub open spec fn add_state(self, s: StateModel) -> NfaModel {
        NfaModel { states: self.states.push(s), ..self }
    }

    /// `from` gains the move `(input, to)` and the alphabet gains `input`.
    pub open spec fn add_transition(self, from: u32, input: u8, to: u32) -> NfaModel {
        NfaModel {
            states: self.states.update(
                from as int,
                StateModel::NonEpsilon(self.states[from as int]->NonEpsilon_0.push((input, to))),
            ),
            alphabet: self.alphabet.insert(input),
            ..self
        }
    }

    /// `from` gains the epsilon move to `to`.
    pub open spec fn add_epsilon_transition(self, from: u32, to: u32) -> NfaModel {
        NfaModel {
            states: self.states.update(
                from as int,
                StateModel::Epsilon(self.states[from as int]->Epsilon_0.push(to)),
            ),
            ..self
        }
    }

    /// `state` becomes the start state.
    pub open spec fn with_start(self, state: u32) -> NfaModel {
        NfaModel { start: Some(state), ..self }
    }

    /// `state` is appended to the accept states.
    pub open spec fn with_accept(self, state: u32) -> NfaModel {
        NfaModel { accept: self.accept.push(state), ..self }
    }

    /// `id` is a state for epsilon moves.
    pub open spec fn is_epsilon(self, id: u32) -> bool {
        id < self.states.len() && self.states[id as int] is Epsilon
    }

    /// `id` is a state for symbol moves.
    pub open spec fn is_non_epsilon(self, id: u32) -> bool {
        id < self.states.len() && self.states[id as int] is NonEpsilon
    }
}

/// A nondeterministic automaton: its states in the order of their ids, the symbols that
/// its moves read, a start state and accept states.
#[derive(Debug)]
pub struct NFA {
    states: Vec<State>,
    alphabet: HashSet<u8>,
    pub start_state: Option<u32>,
    pub accept_states: Vec<u32>,
}

impl View for NFA {
    type V = NfaModel;

    closed spec fn view(&self) -> NfaModel {
        NfaModel {
            states: Seq::new(self.states@.len(), |i: int| self.states@[i]@),
            alphabet: self.alphabet@,
            start: self.start_state,
            accept: self.accept_states@,
        }
    }
}

impl NFA {
    /// The automaton without states.
    pub fn init_empty() -> (nfa: NFA)
        ensures
            nfa@ == NfaModel::empty(),
    {
        let nfa = NFA {
            states: Vec::new(),
            start_state: None,
            accept_states: Vec::new(),
            alphabet: HashSet::new(),
        };
        assert(nfa@.states =~= Seq::empty());
        nfa
    }

    /// Appends `state` and returns its id, the number of states before.
    pub fn add_state(&mut self, state: State) -> (id: u32)
        requires
            old(self)@.states.len() < u32::MAX,
        ensures
            id == old(self)@.states.len(),
            final(self)@ == old(self)@.add_state(state@),
    {
        let id: u32 = self.states.len() as u32;
        self.states.push(state);
        assert(self@.states =~= old(self)@.states.push(state@));
        id
    }

    /// Appends a state that can only take epsilon moves.
    pub fn add_epsilon_state(&mut self) -> (id: u32)
        requires
            old(self)@.states.len() < u32::MAX,
        ensures
            id == old(self)@.states.len(),
            final(self)@ == old(self)@.add_state(StateModel::Epsilon(Seq::empty())),
    {
        self.add_state(State::new_epsilon())
    }

    /// Appends a state that can only take symbol moves.
    pub fn add_non_epsilon_state(&mut self) -> (id: u32)
        requires
            old(self)@.states.len() < u32::MAX,
        ensures
            id == old(self)@.states.len(),
            final(self)@ == old(self)@.add_state(StateModel::NonEpsilon(Seq::empty())),
    {
        self.add_state(State::new_non_epsilon())
    }

    /// Appends a rejecting state without a way out.
    pub fn add_fail_state(&mut self) -> (id: u32)
        requires
            old(self)@.states.len() < u32::MAX,
        ensures
            id == old(self)@.states.len(),
            final(self)@ == old(self)@.add_state(StateModel::Fail),
    {
        self.add_state(State::new_fail())
    }

    /// Appends an accepting state without a way out.
    pub fn add_final_state(&mut self) -> (id: u32)
        requires
            old(self)@.states.len() < u32::MAX,
        ensures
            id == old(self)@.states.len(),
            final(self)@ == old(self)@.add_state(StateModel::Final),
    {
        self.add_state(State::new_final())
    }

    /// Adds the move `from --input--> to`; `from` must be a state for symbol
    /// moves.
    pub fn add_transition(&mut self, from: u32, input: u8, to: u32)
        requires
            old(self)@.is_non_epsilon(from),
        ensures
            final(self)@ == old(self)@.add_transition(from, input, to),
    {
        let idx: usize = from as usize;
        match &mut self.states[idx] {
            State::NonEpsilon(t) => {
                t.0.push((input, to));
            },
            _ => {},
        }
        self.alphabet.insert(input);
        assert(self@.states =~= old(self)@.add_transition(from, input, to).states);
    }

    /// Adds the epsilon move `from --> to`; `from` must be a state for
    /// epsilon moves.
    pub fn add_epsilon_transition(&mut self, from: u32, to: u32)
        requires
            old(self)@.is_epsilon(from),
        ensures
            final(self)@ == old(self)@.add_epsilon_transition(from, to),
    {
        let idx: usize = from as usize;
        match &mut self.states[idx] {
            State::Epsilon(t) => {
                t.0.push(to);
            },
            _ => {},
        }
        assert(self@.states =~= old(self)@.add_epsilon_transition(from, to).states);
    }

    /// Makes `state` the start state.
    pub fn set_start_state(&mut self, state: u32)
        ensures
            final(self)@ == old(self)@.with_start(state),
    {
        self.start_state = Some(state);
    }

    /// Appends `state` to the accept states.
    pub fn set_accept_state(&mut self, state: u32)
        ensures
            final(self)@ == old(self)@.with_accept(state),
    {
        self.accept_states.push(state);
    }

    /// Leaves no accept state.
    pub fn reset_accept_states(&mut self)
        ensures
            final(self)@ == (NfaModel { accept: Seq::empty(), ..old(self)@ }),
    {
        self.accept_states.clear();
    }

    /// The start state, if one is set.
    pub fn start(&self) -> (r: Option<u32>)
        ensures
            r == self@.start,
    {
        self.start_state
    }

    /// The accept states, in the order in which they were set.
    pub fn accepts(&self) -> (r: &Vec<u32>)
        ensures
            r@ == self@.accept,
    {
        &self.accept_states
    }

    /// The states in id order.
    pub fn get_states_iter(&self) -> (r: &Vec<State>)
        ensures
            r@.len() == self@.states.len(),
            forall|i: int| 0 <= i < r@.len() ==> (#[trigger] r@[i])@ == self@.states[i],
    {
        &self.states
    }

    /// The symbols that some `add_transition` has named.
    pub fn alphabet(&self) -> (r: &HashSet<u8>)
        ensures
            r@ == self@.alphabet,
    {
        &self.alphabet
    }
}

impl NFA {
    /// Whether the state ids fit their type, every move leads to an existing
    /// state and the alphabet holds the symbol of every move.
    #[verifier::loop_isolation(false)]
    pub fn is_well_formed(&self) -> (r: bool)
        ensures
            r == self@.wf(),
    {
        let n: usize = self.states.len();
        if n > u32::MAX as usize {
            return false;
        }
        let mut s: usize = 0;
        while s < n
            invariant
                s <= n,
                n == self.states@.len(),
                n <= u32::MAX,
                forall|i: int, k: int|
                    0 <= i < s && 0 <= k < self@.states[i].eps_targets().len() ==> (
                    #[trigger] self@.states[i].eps_targets()[k]) < n,
                forall|i: int, k: int|
                    0 <= i < s && 0 <= k < self@.states[i].moves().len() ==> (
                    #[trigger] self@.states[i].moves()[k]).1 < n && self@.alphabet.contains(
                        self@.states[i].moves()[k].0,
                    ),
            decreases n - s,
        {
            match &self.states[s] {
                State::Epsilon(trans) => {
                    assert(self@.states[s as int].eps_targets() == trans@);
                    assert(self@.states[s as int].moves() =~= Seq::<(u8, u32)>::empty());
                    let mut k: usize = 0;
                    while k < trans.0.len()
                        invariant
                            k <= trans.0.len(),
                            forall|j: int| 0 <= j < k ==> (#[trigger] trans@[j]) < n,
                        decreases trans.0.len() - k,
                    {
                        if trans.0[k] as usize >= n {
                            assert(self@.states[s as int].eps_targets()[k as int] >= n);
                            return false;
                        }
                        k += 1;
                    }
                },
                State::NonEpsilon(trans) => {
                    assert(self@.states[s as int].moves() == trans@);
                    assert(self@.states[s as int].eps_targets() =~= Seq::<u32>::empty());
                    let mut k: usize = 0;
                    while k < trans.0.len()
                        invariant
                            k <= trans.0.len(),
                            forall|j: int|
                                0 <= j < k ==> (#[trigger] trans@[j]).1 < n
                                    && self@.alphabet.contains(trans@[j].0),
                        decreases trans.0.len() - k,
                    {
                        if trans.0[k].1 as usize >= n || !self.alphabet.contains(&trans.0[k].0) {
                            assert(self@.states[s as int].moves()[k as int] == trans@[k as int]);
                            return false;
                        }
                        k += 1;
                    }
                },
                _ => {
                    assert(self@.states[s as int].moves() =~= Seq::<(u8, u32)>::empty());
                    assert(self@.states[s as int].eps_targets() =~= Seq::<u32>::empty());
                },
            }
            s += 1;
        }
        true
    }

    /// The epsilon closure of `state`, each state once, and the symbol moves
    /// that leave it, each move once.
    pub fn epsilon_closure_and_dalta(&self, state: u32) -> (r: (Vec<u32>, Vec<(u8, u32)>))
        requires
            self@.wf(),
            state < self@.states.len(),
        ensures
            r.0@.no_duplicates(),
            r.0@.to_set() == self@.closure(state),
            r.1@.no_duplicates(),
            r.1@.to_set() == self@.delta(state),
            forall|i: int| 0 <= i < r.0@.len() ==> (#[trigger] r.0@[i]) < self@.states.len(),
    {
        let n: usize = self.states.len();
        let mut closure: Vec<u32> = Vec::new();
        let mut stack: Vec<u32> = Vec::new();
        stack.push(state);
        let mut target: Vec<(u8, u32)> = Vec::new();
        let ghost edge = self@.eps_edge();
        proof {
            lemma_reaches_self(edge, state as int);
            assert(stack@[0] == state);
        }
        while stack.len() > 0
            invariant
                n == self@.states.len(),
                self@.wf(),
                edge == self@.eps_edge(),
                closure@.no_duplicates(),
                target@.no_duplicates(),
                forall|x: u32|
                    #[trigger] closure@.contains(x) ==> x < n && reaches(
                        edge,
                        state as int,
                        x as int,
                    ),
                forall|x: u32|
                    #[trigger] stack@.contains(x) ==> x < n && reaches(edge, state as int, x as int),
                closure@.contains(state) || stack@.contains(state),
                forall|x: u32, k: int|
                    closure@.contains(x) && 0 <= k < self@.states[x as int].eps_targets().len()
                        ==> closure@.contains(#[trigger] self@.states[x as int].eps_targets()[k])
                        || stack@.contains(self@.states[x as int].eps_targets()[k]),
                forall|m: (u8, u32)|
                    #[trigger] target@.contains(m) <==> exists|q: u32|
                        closure@.contains(q) && self@.has_move(q, m),
            decreases n - closure@.len(), stack@.len(),
        {
            let ghost stack0 = stack@;
            let ghost closure0 = closure@;
            let ghost target0 = target@;
            let x: u32 = stack.pop().unwrap();
            proof {
                assert(stack@ =~= stack0.drop_last());
                assert(stack0.contains(x)) by {
                    assert(stack0[stack0.len() - 1] == x);
                }
                assert forall|y: u32| #[trigger]
                    stack@.contains(y) implies stack0.contains(y) by {
                    lemma_drop_last_contains(stack0, y);
                }
                assert forall|y: u32| #[trigger]
                    stack0.contains(y) implies stack@.contains(y) || y == x by {
                    lemma_drop_last_contains(stack0, y);
                }
                assert forall|i: int| 0 <= i < closure0.len() implies (#[trigger] closure0[i])
                    < n by {
                    assert(closure0.contains(closure0[i]));
                }
                lemma_distinct_below(closure0, n as int);
            }
            if contains_id(&closure, x) {
                continue ;
            }
            closure.push(x);
            proof {
                assert forall|y: u32| #[trigger]
                    closure@.contains(y) implies closure0.contains(y) || y == x by {
                    lemma_push_contains(closure0, x, y);
                }
                assert forall|y: u32| #[trigger]
                    closure0.contains(y) implies closure@.contains(y) by {
                    lemma_push_contains(closure0, x, y);
                }
                assert(closure@.contains(x)) by {
                    lemma_push_contains(closure0, x, x);
                }
                assert forall|i: int| 0 <= i < closure@.len() implies (#[trigger] closure@[i])
                    < n by {
                    assert(closure@.contains(closure@[i]));
                }
                lemma_distinct_below(closure@, n as int);
            }
            let ghost stack1 = stack@;
            match &self.states[x as usize] {
                State::Epsilon(trans) => {
                    push_unseen(&mut stack, &closure, &trans.0);
                    proof {
                        assert(self@.states[x as int].eps_targets() == trans@);
                        assert(self@.states[x as int].moves() =~= Seq::<(u8, u32)>::empty());
                        assert forall|y: u32| #[trigger] stack@.contains(y) implies y < n
                            && reaches(edge, state as int, y as int) by {
                            if !stack1.contains(y) {
                                let k = choose|k: int| 0 <= k < trans@.len() && trans@[k] == y;
                                assert(self@.states[x as int].eps_targets()[k] == y);
                                assert(edge(x as int, y as int));
                                lemma_reaches_step(edge, state as int, x as int, y as int);
                            }
                        }
                    }
                },
                State::NonEpsilon(trans) => {
                    merge_moves(&mut target, &trans.0);
                    proof {
                        assert(self@.states[x as int].moves() == trans@);
                        assert(self@.states[x as int].eps_targets() =~= Seq::<u32>::empty());
                    }
                },
                _ => {
                    proof {
                        assert(self@.states[x as int].moves() =~= Seq::<(u8, u32)>::empty());
                        assert(self@.states[x as int].eps_targets() =~= Seq::<u32>::empty());
                    }
                },
            }
            proof {
                assert forall|y: u32, k: int|
                    closure@.contains(y) && 0 <= k < self@.states[y as int].eps_targets().len()
                    implies closure@.contains(#[trigger] self@.states[y as int].eps_targets()[k])
                    || stack@.contains(self@.states[y as int].eps_targets()[k]) by {
                    let t = self@.states[y as int].eps_targets()[k];
                    if y == x {
                        assert(self@.states[x as int].eps_targets().contains(t));
                    } else {
                        assert(closure0.contains(y));
                        assert(closure0.contains(t) || stack0.contains(t));
                    }
                }
                assert forall|m: (u8, u32)| #[trigger]
                    target@.contains(m) <==> exists|q: u32|
                        closure@.contains(q) && self@.has_move(q, m) by {
                    if target@.contains(m) {
                        if target0.contains(m) {
                            let q = choose|q: u32| closure0.contains(q) && self@.has_move(q, m);
                            assert(closure@.contains(q) && self@.has_move(q, m));
                        } else {
                            assert(closure@.contains(x) && self@.has_move(x, m));
                        }
                    }
                    if exists|q: u32| closure@.contains(q) && self@.has_move(q, m) {
                        let q = choose|q: u32| closure@.contains(q) && self@.has_move(q, m);
                        if q != x {
                            assert(closure0.contains(q) && self@.has_move(q, m));
                        }
                    }
                }
            }
        }
        proof {
            let held = Set::new(|y: int| 0 <= y <= u32::MAX && closure@.contains(y as u32));
            assert(closed_under(edge, held)) by {
                assert forall|a: int, b: int| held.contains(a) && #[trigger] edge(
                    a,
                    b,
                ) implies held.contains(b) by {
                    let k = choose|k: int|
                        0 <= k < self@.states[a].eps_targets().len()
                            && #[trigger] self@.states[a].eps_targets()[k] == b;
                    let t = self@.states[(a as u32) as int].eps_targets()[k];
                    assert(closure@.contains(t) || stack@.contains(t));
                    assert(stack@.len() == 0);
                }
            }
            assert(!stack@.contains(state));
            assert(held.contains(state as int));
            assert forall|t: u32| closure@.to_set().contains(t) <==> self@.closure(state).contains(
                t,
            ) by {
                if self@.closure(state).contains(t) {
                    lemma_closed_holds_reachable(edge, held, state as int, t as int);
                }
            }
            assert(closure@.to_set() =~= self@.closure(state));
            assert forall|m: (u8, u32)| target@.to_set().contains(m) <==> self@.delta(
                state,
            ).contains(m) by {
                if target@.contains(m) {
                    let q = choose|q: u32| closure@.contains(q) && self@.has_move(q, m);
                    assert(self@.closure(state).contains(q));
                }
                if self@.delta(state).contains(m) {
                    let q = choose|q: u32| self@.closure(state).contains(q) && self@.has_move(q, m);
                    assert(closure@.to_set().contains(q));
                }
            }
            assert(target@.to_set() =~= self@.delta(state));
            assert forall|i: int| 0 <= i < closure@.len() implies (#[trigger] closure@[i]) < n by {
                assert(closure@.contains(closure@[i]));
            }
        }
        (closure, target)
    }
}

/// Pushes onto `acc` the move `(input, t)` for every `t` of `targets`.
fn push_moves(acc: &mut Vec<(u8, u32)>, input: u8, targets: &Vec<u32>)
    ensures
        forall|m: (u8, u32)|
            #[trigger] final(acc)@.contains(m) <==> (old(acc)@.contains(m) || (m.0 == input
                && targets@.contains(m.1))),
{
    let mut i: usize = 0;
    while i < targets.len()
        invariant
            i <= targets.len(),
            forall|m: (u8, u32)|
                #[trigger] acc@.contains(m) <==> (old(acc)@.contains(m) || (m.0 == input
                    && targets@.subrange(0, i as int).contains(m.1))),
        decreases targets.len() - i,
    {
        let t: u32 = targets[i];
        let ghost before = acc@;
        let ghost done = targets@.subrange(0, i as int);
        assert(targets@.subrange(0, i + 1) =~= done.push(t));
        acc.push((input, t));
        proof {
            assert forall|m: (u8, u32)| #[trigger]
                acc@.contains(m) <==> (old(acc)@.contains(m) || (m.0 == input && done.push(
                    t,
                ).contains(m.1))) by {
                lemma_push_contains(before, (input, t), m);
                lemma_push_contains(done, t, m.1);
            }
        }
        i += 1;
    }
    assert(targets@.subrange(0, targets@.len() as int) =~= targets@);
}

impl NFA {
    /// The states of the epsilon closure of `state` that take no epsilon
    /// moves.
    pub fn epsilon_closure_to_non_epsilon(&self, state: u32) -> (r: HashSet<u32>)
        requires
            self@.wf(),
            state < self@.states.len(),
        ensures
            r@ == self@.landing(state),
    {
        let (closure, _) = self.epsilon_closure_and_dalta(state);
        let mut target: Vec<u32> = Vec::new();
        let mut i: usize = 0;
        while i < closure.len()
            invariant
                i <= closure.len(),
                closure@.no_duplicates(),
                target@.no_duplicates(),
                forall|j: int| 0 <= j < closure@.len() ==> (#[trigger] closure@[j]) < self@.states.len(),
                forall|t: u32|
                    #[trigger] target@.contains(t) <==> (closure@.subrange(0, i as int).contains(t)
                        && !(self@.states[t as int] is Epsilon)),
            decreases closure.len() - i,
        {
            let x: u32 = closure[i];
            let ghost before = target@;
            let ghost done = closure@.subrange(0, i as int);
            assert(closure@.subrange(0, i + 1) =~= done.push(x));
            assert(!done.contains(x)) by {
                if done.contains(x) {
                    let j = choose|j: int| 0 <= j < done.len() && done[j] == x;
                    assert(closure@[j] == closure@[i as int]);
                }
            }
            let keep: bool = match &self.states[x as usize] {
                State::Epsilon(_) => false,
                _ => true,
            };
            if keep {
                proof {
                    lemma_push_no_duplicates(before, x);
                }
                target.push(x);
            }
            proof {
                assert forall|t: u32| #[trigger]
                    target@.contains(t) <==> (done.push(x).contains(t) && !(
                    self@.states[t as int] is Epsilon)) by {
                    lemma_push_contains(before, x, t);
                    lemma_push_contains(done, x, t);
                }
            }
            i += 1;
        }
        proof {
            assert(closure@.subrange(0, closure@.len() as int) =~= closure@);
            assert forall|t: u32| target@.to_set().contains(t) <==> self@.landing(state).contains(
                t,
            ) by {
                if target@.contains(t) {
                    assert(closure@.to_set().contains(t));
                    let j = choose|j: int| 0 <= j < closure@.len() && closure@[j] == t;
                    assert(closure@[j] < self@.states.len());
                }
                if self@.landing(state).contains(t) {
                    assert(closure@.to_set().contains(t));
                }
            }
            assert(target@.to_set() =~= self@.landing(state));
        }
        set_of(&target)
    }

    /// The moves of `state` once epsilon moves are eliminated: see
    /// [`NfaModel::delta_hat`]. A move may occur more than once.
    pub fn get_dalta_hat_transitions(&self, state: u32) -> (r: Vec<(u8, u32)>)
        requires
            self@.wf(),
            state < self@.states.len(),
        ensures
            r@.to_set() == self@.delta_hat(state),
            forall|i: int| 0 <= i < r@.len() ==> (#[trigger] r@[i]).1 < self@.states.len(),
    {
        let mut result: Vec<(u8, u32)> = Vec::new();
        let (_, moves) = self.epsilon_closure_and_dalta(state);
        let mut i: usize = 0;
        while i < moves.len()
            invariant
                i <= moves.len(),
                self@.wf(),
                moves@.to_set() == self@.delta(state),
                forall|m: (u8, u32)|
                    #[trigger] result@.contains(m) <==> exists|j: int|
                        0 <= j < i && (#[trigger] moves@[j]).0 == m.0 && self@.landing(
                            moves@[j].1,
                        ).contains(m.1),
            decreases moves.len() - i,
        {
            let input: u8 = moves[i].0;
            let to: u32 = moves[i].1;
            let ghost before = result@;
            proof {
                assert(moves@.to_set().contains(moves@[i as int]));
                let q = choose|q: u32|
                    self@.closure(state).contains(q) && self@.has_move(q, moves@[i as int]);
                let k = choose|k: int|
                    0 <= k < self@.states[q as int].moves().len() && self@.states[q as int].moves()[k]
                        == moves@[i as int];
                assert(self@.states[q as int].moves()[k].1 < self@.states.len());
            }
            let land: Vec<u32> = members_of(&self.epsilon_closure_to_non_epsilon(to));
            push_moves(&mut result, input, &land);
            proof {
                assert forall|m: (u8, u32)| #[trigger]
                    result@.contains(m) <==> exists|j: int|
                        0 <= j < i + 1 && (#[trigger] moves@[j]).0 == m.0 && self@.landing(
                            moves@[j].1,
                        ).contains(m.1) by {
                    if result@.contains(m) {
                        if before.contains(m) {
                            let j = choose|j: int|
                                0 <= j < i && (#[trigger] moves@[j]).0 == m.0 && self@.landing(
                                    moves@[j].1,
                                ).contains(m.1);
                            assert(0 <= j < i + 1 && moves@[j].0 == m.0);
                        } else {
                            assert(land@.to_set().contains(m.1));
                            assert(moves@[i as int].0 == m.0);
                        }
                    }
                    if exists|j: int|
                        0 <= j < i + 1 && (#[trigger] moves@[j]).0 == m.0 && self@.landing(
                            moves@[j].1,
                        ).contains(m.1) {
                        let j = choose|j: int|
                            0 <= j < i + 1 && (#[trigger] moves@[j]).0 == m.0 && self@.landing(
                                moves@[j].1,
                            ).contains(m.1);
                        if j == i {
                            assert(land@.to_set().contains(m.1));
                        } else {
                            assert(0 <= j < i && moves@[j].0 == m.0);
                        }
                    }
                }
            }
            i += 1;
        }
        proof {
            assert forall|m: (u8, u32)| result@.to_set().contains(m) <==> self@.delta_hat(
                state,
            ).contains(m) by {
                if result@.contains(m) {
                    let j = choose|j: int|
                        0 <= j < i && (#[trigger] moves@[j]).0 == m.0 && self@.landing(
                            moves@[j].1,
                        ).contains(m.1);
                    assert(moves@.to_set().contains(moves@[j]));
                    assert(self@.delta(state).contains((m.0, moves@[j].1)));
                }
                if self@.delta_hat(state).contains(m) {
                    let t = choose|t: u32|
                        self@.delta(state).contains((m.0, t)) && self@.landing(t).contains(m.1);
                    assert(moves@.to_set().contains((m.0, t)));
                    let j = choose|j: int| 0 <= j < moves@.len() && moves@[j] == (m.0, t);
                    assert(moves@[j].0 == m.0);
                }
            }
            assert(result@.to_set() =~= self@.delta_hat(state));
            assert forall|k: int| 0 <= k < result@.len() implies (#[trigger] result@[k]).1
                < self@.states.len() by {
                assert(result@.contains(result@[k]));
                assert(self@.delta_hat(state).contains(result@[k]));
            }
        }
        result
    }
}

/// Pushes onto `stack` the target of every move of `moves`.
fn push_targets(stack: &mut Vec<u32>, moves: &Vec<(u8, u32)>)
    ensures
        forall|x: u32|
            #[trigger] final(stack)@.contains(x) <==> (old(stack)@.contains(x) || exists|k: int|
                0 <= k < moves@.len() && (#[trigger] moves@[k]).1 == x),
{
    let mut i: usize = 0;
    while i < moves.len()
        invariant
            i <= moves.len(),
            forall|x: u32|
                #[trigger] stack@.contains(x) <==> (old(stack)@.contains(x) || exists|k: int|
                    0 <= k < i && (#[trigger] moves@[k]).1 == x),
        decreases moves.len() - i,
    {
        let t: u32 = moves[i].1;
        let ghost before = stack@;
        stack.push(t);
        proof {
            assert forall|x: u32| #[trigger]
                stack@.contains(x) <==> (old(stack)@.contains(x) || exists|k: int|
                    0 <= k < i + 1 && (#[trigger] moves@[k]).1 == x) by {
                lemma_push_contains(before, t, x);
                if before.contains(x) && !old(stack)@.contains(x) {
                    let k = choose|k: int| 0 <= k < i && (#[trigger] moves@[k]).1 == x;
                    assert(0 <= k < i + 1 && moves@[k].1 == x);
                }
                if x == t {
                    assert(moves@[i as int].1 == x);
                }
                if exists|k: int| 0 <= k < i + 1 && (#[trigger] moves@[k]).1 == x {
                    let k = choose|k: int| 0 <= k < i + 1 && (#[trigger] moves@[k]).1 == x;
                    if k < i {
                        assert(before.contains(x));
                    }
                }
            }
        }
        i += 1;
    }
}

impl NFA {
    /// The ids of the states that symbol moves do not reach from the start
    /// state.
    pub fn search_unreachable_states(&self) -> (r: HashSet<u32>)
        requires
            self@.wf(),
            self@.start matches Some(s0) && s0 < self@.states.len(),
        ensures
            forall|x: u32|
                #[trigger] r@.contains(x) <==> x < self@.states.len() && !self@.reachable(x),
    {
        let n: usize = self.states.len();
        let start: u32 = self.start_state.unwrap();
        let mut reached: Vec<u32> = Vec::new();
        let mut stack: Vec<u32> = Vec::new();
        stack.push(start);
        let ghost edge = self@.move_edge();
        proof {
            lemma_reaches_self(edge, start as int);
            assert(stack@[0] == start);
        }
        while stack.len() > 0
            invariant
                n == self@.states.len(),
                self@.wf(),
                edge == self@.move_edge(),
                reached@.no_duplicates(),
                forall|x: u32|
                    #[trigger] reached@.contains(x) ==> x < n && reaches(
                        edge,
                        start as int,
                        x as int,
                    ),
                forall|x: u32|
                    #[trigger] stack@.contains(x) ==> x < n && reaches(edge, start as int, x as int),
                reached@.contains(start) || stack@.contains(start),
                forall|x: u32, k: int|
                    reached@.contains(x) && 0 <= k < self@.states[x as int].moves().len()
                        ==> reached@.contains((#[trigger] self@.states[x as int].moves()[k]).1)
                        || stack@.contains(self@.states[x as int].moves()[k].1),
            decreases n - reached@.len(), stack@.len(),
        {
            let ghost stack0 = stack@;
            let ghost reached0 = reached@;
            let x: u32 = stack.pop().unwrap();
            proof {
                assert(stack@ =~= stack0.drop_last());
                assert(stack0.contains(x)) by {
                    assert(stack0[stack0.len() - 1] == x);
                }
                assert forall|y: u32| #[trigger] stack@.contains(y) implies stack0.contains(y) by {
                    lemma_drop_last_contains(stack0, y);
                }
                assert forall|y: u32| #[trigger]
                    stack0.contains(y) implies stack@.contains(y) || y == x by {
                    lemma_drop_last_contains(stack0, y);
                }
                assert forall|i: int| 0 <= i < reached0.len() implies (#[trigger] reached0[i])
                    < n by {
                    assert(reached0.contains(reached0[i]));
                }
                lemma_distinct_below(reached0, n as int);
            }
            if contains_id(&reached, x) {
                continue ;
            }
            proof {
                lemma_push_no_duplicates(reached0, x);
            }
            reached.push(x);
            proof {
                assert forall|y: u32| #[trigger]
                    reached@.contains(y) implies reached0.contains(y) || y == x by {
                    lemma_push_contains(reached0, x, y);
                }
                assert forall|y: u32| #[trigger]
                    reached0.contains(y) implies reached@.contains(y) by {
                    lemma_push_contains(reached0, x, y);
                }
                assert(reached@.contains(x)) by {
                    lemma_push_contains(reached0, x, x);
                }
                assert forall|i: int| 0 <= i < reached@.len() implies (#[trigger] reached@[i])
                    < n by {
                    assert(reached@.contains(reached@[i]));
                }
                lemma_distinct_below(reached@, n as int);
            }
            let ghost stack1 = stack@;
            match &self.states[x as usize] {
                State::NonEpsilon(trans) => {
                    push_targets(&mut stack, &trans.0);
                    proof {
                        assert(self@.states[x as int].moves() == trans@);
                        assert forall|y: u32| #[trigger] stack@.contains(y) implies y < n
                            && reaches(edge, start as int, y as int) by {
                            if !stack1.contains(y) {
                                let k = choose|k: int|
                                    0 <= k < trans@.len() && (#[trigger] trans@[k]).1 == y;
                                assert(self@.states[x as int].moves()[k].1 == y);
                                assert(edge(x as int, y as int));
                                lemma_reaches_step(edge, start as int, x as int, y as int);
                            }
                        }
                    }
                },
                _ => {
                    proof {
                        assert(self@.states[x as int].moves() =~= Seq::<(u8, u32)>::empty());
                    }
                },
            }
            proof {
                assert forall|y: u32, k: int|
                    reached@.contains(y) && 0 <= k < self@.states[y as int].moves().len()
                    implies reached@.contains((#[trigger] self@.states[y as int].moves()[k]).1)
                    || stack@.contains(self@.states[y as int].moves()[k].1) by {
                    let t = self@.states[y as int].moves()[k].1;
                    if y == x {
                    } else {
                        assert(reached0.contains(y));
                        assert(reached0.contains(t) || stack0.contains(t));
                    }
                }
            }
        }
        proof {
            let held = Set::new(|y: int| 0 <= y <= u32::MAX && reached@.contains(y as u32));
            assert(closed_under(edge, held)) by {
                assert forall|a: int, b: int| held.contains(a) && #[trigger] edge(
                    a,
                    b,
                ) implies held.contains(b) by {
                    let k = choose|k: int|
                        0 <= k < self@.states[a].moves().len() && (
                        #[trigger] self@.states[a].moves()[k]).1 == b;
                    let t = self@.states[(a as u32) as int].moves()[k].1;
                    assert(reached@.contains(t) || stack@.contains(t));
                    assert(stack@.len() == 0);
                }
            }
            assert(!stack@.contains(start));
            assert(held.contains(start as int));
            assert forall|t: u32| reached@.contains(t) <==> t < n && self@.reachable(t) by {
                if self@.reachable(t) {
                    lemma_closed_holds_reachable(edge, held, start as int, t as int);
                }
            }
        }
        let mut unreachable: Vec<u32> = Vec::new();
        let mut id: usize = 0;
        while id < n
            invariant
                id <= n,
                n == self@.states.len(),
                n <= u32::MAX,
                forall|t: u32| reached@.contains(t) <==> t < n && self@.reachable(t),
                forall|x: u32|
                    #[trigger] unreachable@.contains(x) <==> x < id && !self@.reachable(x),
                forall|i: int, j: int|
                    0 <= i < j < unreachable@.len() ==> unreachable@[i] < unreachable@[j],
                forall|i: int| 0 <= i < unreachable@.len() ==> unreachable@[i] < id,
            decreases n - id,
        {
            let ghost before = unreachable@;
            if !contains_id(&reached, id as u32) {
                unreachable.push(id as u32);
            }
            proof {
                assert forall|x: u32| #[trigger]
                    unreachable@.contains(x) <==> x < id + 1 && !self@.reachable(x) by {
                    lemma_push_contains(before, id as u32, x);
                }
            }
            id += 1;
        }
        set_of(&unreachable)
    }

    /// Replaces state `id` by a rejecting state without a way out.
    pub fn set_fail(&mut self, id: u32)
        requires
            id < old(self)@.states.len(),
        ensures
            final(self)@ == (NfaModel {
                states: old(self)@.states.update(id as int, StateModel::Fail),
                ..old(self)@
            }),
    {
        self.states.set(id as usize, State::Fail);
        assert(self@.states =~= old(self)@.states.update(id as int, StateModel::Fail));
    }
}

impl NFA {
    /// The symbol moves of `state` with every target sent through `map`.
    fn remap_trans(&self, state: u32, map: &Vec<Option<u32>>) -> (r: Vec<(u8, u32)>)
        requires
            state < self@.states.len(),
            forall|k: int|
                0 <= k < self@.states[state as int].moves().len() ==> (
                #[trigger] self@.states[state as int].moves()[k]).1 < map@.len()
                    && map@[self@.states[state as int].moves()[k].1 as int] is Some,
        ensures
            r@ == self@.states[state as int].moves().map_values(
                |m: (u8, u32)| (m.0, map@[m.1 as int]->Some_0),
            ),
    {
        let mut out: Vec<(u8, u32)> = Vec::new();
        if let State::NonEpsilon(trans) = &self.states[state as usize] {
            assert(self@.states[state as int].moves() == trans@);
            let mut k: usize = 0;
            while k < trans.0.len()
                invariant
                    k <= trans.0.len(),
                    trans@ == self@.states[state as int].moves(),
                    forall|j: int|
                        0 <= j < trans@.len() ==> (#[trigger] trans@[j]).1 < map@.len()
                            && map@[trans@[j].1 as int] is Some,
                    out@ == trans@.subrange(0, k as int).map_values(
                        |m: (u8, u32)| (m.0, map@[m.1 as int]->Some_0),
                    ),
                decreases trans.0.len() - k,
            {
                let m: (u8, u32) = trans.0[k];
                assert(trans@[k as int].1 < map@.len());
                let to: u32 = map[m.1 as usize].unwrap();
                out.push((m.0, to));
                assert(out@ =~= trans@.subrange(0, k + 1).map_values(
                    |m: (u8, u32)| (m.0, map@[m.1 as int]->Some_0),
                ));
                k += 1;
            }
            assert(trans@.subrange(0, trans@.len() as int) =~= trans@);
        } else {
            assert(self@.states[state as int].moves() =~= Seq::<(u8, u32)>::empty());
            assert(out@ =~= self@.states[state as int].moves().map_values(
                |m: (u8, u32)| (m.0, map@[m.1 as int]->Some_0),
            ));
        }
        out
    }

    /// Drops the rejecting states without a way out and numbers the others
    /// anew, the start state and the accept states with them: see
    /// [`NfaModel::compacted`]. To be called on an automaton without epsilon
    /// moves in which no move leads to a dropped state.
    pub fn remap_states(&mut self)
        requires
            old(self)@.wf(),
            old(self)@.no_move_into_fail(),
        ensures
            final(self)@ == old(self)@.compacted(),
    {
        let n: usize = self.states.len();
        let mut id_map: Vec<Option<u32>> = Vec::new();
        let mut new_index: u32 = 0;
        let mut i: usize = 0;
        while i < n
            invariant
                i <= n,
                n == self@.states.len(),
                n <= u32::MAX,
                id_map@.len() == i,
                new_index == self@.live_below(i as int),
                new_index <= i,
                forall|j: int|
                    0 <= j < i ==> #[trigger] id_map@[j] == (if self@.states[j] is Fail {
                        None::<u32>
                    } else {
                        Some(self@.live_below(j) as u32)
                    }),
            decreases n - i,
        {
            match &self.states[i] {
                State::Fail => {
                    id_map.push(None);
                },
                _ => {
                    id_map.push(Some(new_index));
                    new_index += 1;
                },
            }
            i += 1;
        }
        let mut out: Vec<State> = Vec::new();
        let mut id: usize = 0;
        while id < n
            invariant
                id <= n,
                n == self@.states.len(),
                n <= u32::MAX,
                self@.wf(),
                self@.no_move_into_fail(),
                id_map@.len() == n,
                forall|j: int|
                    0 <= j < n ==> #[trigger] id_map@[j] == (if self@.states[j] is Fail {
                        None::<u32>
                    } else {
                        Some(self@.live_below(j) as u32)
                    }),
                out@.len() == self@.compacted_upto(id as int).len(),
                forall|j: int|
                    0 <= j < out@.len() ==> (#[trigger] out@[j])@ == self@.compacted_upto(
                        id as int,
                    )[j],
            decreases n - id,
        {
            let ghost before = out@;
            match &self.states[id] {
                State::Fail => {},
                State::Final => {
                    out.push(State::Final);
                },
                State::Epsilon(trans) => {
                    let copy: Vec<u32> = trans.0.clone();
                    out.push(State::Epsilon(EpsilonTrans(copy)));
                },
                State::NonEpsilon(trans) => {
                    proof {
                        assert(self@.states[id as int].moves() == trans@);
                        assert forall|k: int| 0 <= k < trans@.len() implies (#[trigger] trans@[k]).1
                            < n && id_map@[trans@[k].1 as int] is Some by {
                            assert(self@.states[id as int].moves()[k].1 < n);
                            assert(!(self@.states[self@.states[id as int].moves()[k].1 as int]
                                is Fail));
                        }
                    }
                    let moved: Vec<(u8, u32)> = self.remap_trans(id as u32, &id_map);
                    proof {
                        assert(moved@ =~= trans@.map_values(
                            |m: (u8, u32)| (m.0, self@.live_below(m.1 as int) as u32),
                        )) by {
                            assert forall|k: int| 0 <= k < trans@.len() implies moved@[k] == (
                                trans@[k].0,
                                self@.live_below(trans@[k].1 as int) as u32,
                            ) by {
                                assert(self@.states[id as int].moves()[k].1 < n);
                                assert(!(self@.states[self@.states[id as int].moves()[k].1 as int]
                                    is Fail));
                            }
                        }
                    }
                    out.push(State::NonEpsilon(NonEpsilonTrans(moved)));
                },
            }
            id += 1;
        }
        self.states = out;
        assert(self@.states =~= old(self)@.compacted().states);
        self.start_state = match self.start_state {
            Some(start) => if (start as usize) < n {
                id_map[start as usize]
            } else {
                None
            },
            None => None,
        };
        let mut accept: Vec<u32> = Vec::new();
        let mut k: usize = 0;
        while k < self.accept_states.len()
            invariant
                k <= self.accept_states.len(),
                self.accept_states@ == old(self)@.accept,
                n == old(self)@.states.len(),
                id_map@.len() == n,
                forall|j: int|
                    0 <= j < n ==> #[trigger] id_map@[j] == (if old(self)@.states[j] is Fail {
                        None::<u32>
                    } else {
                        Some(old(self)@.live_below(j) as u32)
                    }),
                accept@ == old(self)@.kept_ids(old(self)@.accept.take(k as int)),
            decreases self.accept_states.len() - k,
        {
            let id: u32 = self.accept_states[k];
            assert(old(self)@.accept.take(k + 1).drop_last() =~= old(self)@.accept.take(k as int));
            if (id as usize) < n {
                match id_map[id as usize] {
                    Some(new_id) => {
                        accept.push(new_id);
                    },
                    None => {},
                }
            }
            k += 1;
        }
        assert(old(self)@.accept.take(old(self)@.accept.len() as int) =~= old(self)@.accept);
        self.accept_states = accept;
    }
}

impl NFA {
    /// The symbol moves of state `state_id` by symbol, the symbols in
    /// ascending order; no group for a state of another kind.
    pub fn deltas(&self, state_id: u32) -> (r: Vec<(u8, Vec<u32>)>)
        requires
            state_id < self@.states.len(),
        ensures
            grouped_by_symbol(self@.states[state_id as int].moves(), r@),
    {
        match &self.states[state_id as usize] {
            State::NonEpsilon(trans) => {
                assert(self@.states[state_id as int].moves() == trans@);
                group_by_symbol(&trans.0)
            },
            _ => {
                assert(self@.states[state_id as int].moves() =~= Seq::<(u8, u32)>::empty());
                Vec::new()
            },
        }
    }

    /// The states that lead to `state`: those with an epsilon move to it, in
    /// ascending order, and, move by move in the order of the states, the
    /// states with a symbol move to it together with the symbol.
    pub fn search_inset_of_state(&self, state: u32) -> (r: (Vec<u32>, Vec<(u32, u8)>))
        requires
            self@.states.len() <= u32::MAX,
        ensures
            r.0@ == self@.epsilon_inset(state, self@.states.len() as int),
            r.1@ == self@.symbol_inset(state, self@.states.len() as int),
    {
        let mut epsilon_from: Vec<u32> = Vec::new();
        let mut non_epsilon_from: Vec<(u32, u8)> = Vec::new();
        let n: usize = self.states.len();
        let mut origin: usize = 0;
        while origin < n
            invariant
                origin <= n,
                n == self@.states.len(),
                n <= u32::MAX,
                epsilon_from@ == self@.epsilon_inset(state, origin as int),
                non_epsilon_from@ == self@.symbol_inset(state, origin as int),
            decreases n - origin,
        {
            match &self.states[origin] {
                State::Epsilon(trans) => {
                    assert(self@.states[origin as int].eps_targets() == trans@);
                    assert(self@.states[origin as int].moves() =~= Seq::<(u8, u32)>::empty());
                    if contains_id(&trans.0, state) {
                        epsilon_from.push(origin as u32);
                    }
                },
                State::NonEpsilon(trans) => {
                    assert(self@.states[origin as int].moves() == trans@);
                    assert(self@.states[origin as int].eps_targets() =~= Seq::<u32>::empty());
                    let ghost before = non_epsilon_from@;
                    let mut k: usize = 0;
                    while k < trans.0.len()
                        invariant
                            k <= trans.0.len(),
                            origin < n,
                            n <= u32::MAX,
                            non_epsilon_from@ == before + moves_into(
                                trans@.subrange(0, k as int),
                                origin as u32,
                                state,
                            ),
                        decreases trans.0.len() - k,
                    {
                        let m: (u8, u32) = trans.0[k];
                        assert(trans@.subrange(0, k + 1).drop_last() =~= trans@.subrange(
                            0,
                            k as int,
                        ));
                        if m.1 == state {
                            non_epsilon_from.push((origin as u32, m.0));
                        }
                        assert(non_epsilon_from@ =~= before + moves_into(
                            trans@.subrange(0, k + 1),
                            origin as u32,
                            state,
                        ));
                        k += 1;
                    }
                    assert(trans@.subrange(0, trans@.len() as int) =~= trans@);
                },
                _ => {
                    assert(self@.states[origin as int].moves() =~= Seq::<(u8, u32)>::empty());
                    assert(self@.states[origin as int].eps_targets() =~= Seq::<u32>::empty());
                },
            }
            assert(non_epsilon_from@ =~= self@.symbol_inset(state, origin + 1));
            origin += 1;
        }
        (epsilon_from, non_epsilon_from)
    }
}

/// For each move of `moves` that leads to `state`, the pair of `origin` and
/// the symbol of the move, in the order of `moves`.
pub open spec fn moves_into(moves: Seq<(u8, u32)>, origin: u32, state: u32) -> Seq<(u32, u8)>
    decreases moves.len(),
{
    if moves.len() == 0 {
        Seq::empty()
    } else if moves.last().1 == state {
        moves_into(moves.drop_last(), origin, state).push((origin, moves.last().0))
    } else {
        moves_into(moves.drop_last(), origin, state)
    }
}

impl NfaModel {
    /// The states below `upto` that have an epsilon move to `state`, in
    /// ascending order.
    pub open spec fn epsilon_inset(self, state: u32, upto: int) -> Seq<u32>
        decreases upto,
    {
        if upto <= 0 {
            Seq::empty()
        } else if self.states[upto - 1].eps_targets().contains(state) {
            self.epsilon_inset(state, upto - 1).push((upto - 1) as u32)
        } else {
            self.epsilon_inset(state, upto - 1)
        }
    }

    /// The symbol moves into `state` out of the states below `upto`, each as
    /// the pair of its origin and its symbol, in the order of the states and
    /// then of their moves.
    pub open spec fn symbol_inset(self, state: u32, upto: int) -> Seq<(u32, u8)>
        decreases upto,
    {
        if upto <= 0 {
            Seq::empty()
        } else {
            self.symbol_inset(state, upto - 1) + moves_into(
                self.states[upto - 1].moves(),
                (upto - 1) as u32,
                state,
            )
        }
    }
}

} // verus!
