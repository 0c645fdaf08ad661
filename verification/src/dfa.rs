//! Deterministic automata over the symbols `0` and `1` whose states are sets
//! of states of a nondeterministic automaton: the set's bits are the state's
//! id.
use crate::nfa::{NfaModel, NFA};
use itertools::Itertools;
use std::collections::{HashMap, HashSet};
use vstd::prelude::*;

verus! {

broadcast use vstd::std_specs::hash::group_hash_axioms;

/// The symbol `0`.
pub const ZERO: u8 = 48;

/// The symbol `1`.
pub const ONE: u8 = 49;

/// The largest number of states of a nondeterministic automaton whose sets
/// of states fit the bits of a state id.
pub const MAX_STATES: usize = 128;

/// The set that holds exactly the states `ts`.
pub open spec fn or_fold(ts: Seq<u32>) -> u128
    decreases ts.len(),
{
    if ts.len() == 0 {
        0
    } else {
        or_fold(ts.drop_last()) | (1u128 << ts.last())
    }
}

/// Whether the set `id` holds state `i`.
pub open spec fn has_bit(id: u128, i: u32) -> bool {
    (id >> i) & 1 == 1
}

/// The union with the empty set changes nothing.
pub proof fn lemma_or_zero(x: u128)
    ensures
        x | 0 == x,
        0 | x == x,
{
    assert(x | 0 == x) by (bit_vector);
    assert(0 | x == x) by (bit_vector);
}

/// A union holds what one of the two sets holds.
pub proof fn lemma_bit_of_or(x: u128, y: u128, i: u32)
    requires
        i < 128,
    ensures
        has_bit(x | y, i) == (has_bit(x, i) || has_bit(y, i)),
{
    assert(((x | y) >> i) & 1 == 1 <==> ((x >> i) & 1 == 1 || (y >> i) & 1 == 1)) by (bit_vector)
        requires
            i < 128,
    ;
}

/// The set of one state holds that state only.
pub proof fn lemma_bit_of_single(t: u32, i: u32)
    requires
        t < 128,
        i < 128,
    ensures
        has_bit(1u128 << t, i) == (t == i),
{
    assert((((1u128 << t) >> i) & 1 == 1) <==> (t == i)) by (bit_vector)
        requires
            t < 128,
            i < 128,
    ;
}

/// The empty set holds no state.
pub proof fn lemma_bit_of_zero(i: u32)
    requires
        i < 128,
    ensures
        !has_bit(0, i),
{
    assert((0u128 >> i) & 1 == 0) by (bit_vector)
        requires
            i < 128,
    ;
}

/// The set of the states `targets`, each below 128.
pub fn encode_subset(targets: &Vec<u32>) -> (r: u128)
    requires
        forall|i: int| 0 <= i < targets@.len() ==> (#[trigger] targets@[i]) < 128,
    ensures
        r == or_fold(targets@),
{
    let mut result: u128 = 0;
    let mut i: usize = 0;
    while i < targets.len()
        invariant
            i <= targets.len(),
            forall|i: int| 0 <= i < targets@.len() ==> (#[trigger] targets@[i]) < 128,
            result == or_fold(targets@.subrange(0, i as int)),
        decreases targets.len() - i,
    {
        let t: u32 = targets[i];
        assert(targets@.subrange(0, i + 1).drop_last() =~= targets@.subrange(0, i as int));
        result = result | (1u128 << t);
        i += 1;
    }
    assert(targets@.subrange(0, targets@.len() as int) =~= targets@);
    result
}

/// Why no deterministic automaton could be built.
#[derive(Debug, Clone, Copy, PartialEq, Eq, Structural)]
pub enum DfaError {
    /// The nondeterministic automaton has more than 128 states.
    TooManyStates,
    /// The alphabet of the nondeterministic automaton is not `{0, 1}`.
    UnsupportedAlphabet,
    /// The nondeterministic automaton has a move to a state that it does
    /// not have, or lacks a usable start or accept state.
    MalformedAutomaton,
}

/// Why a lookup in a transition function failed.
#[derive(Debug, Clone, Copy, PartialEq, Eq, Structural)]
pub enum DeltaError {
    /// The automaton has no such state.
    UnknownState,
    /// The alphabet does not hold the symbol.
    UnknownSymbol,
}

/// Mathematical value of a [`DFA01`]: each state id with its successors on
/// `0` and on `1`.
pub struct DfaModel {
    pub states: Map<u128, (u128, u128)>,
    /// The first and the last symbol of the alphabet.
    pub alphabet: (u8, u8),
    pub start: Option<u128>,
    pub accept: Set<u128>,
}

/// Number of values of a state id.
pub open spec fn id_space() -> int {
    0x1_0000_0000_0000_0000_0000_0000_0000_0000int
}

impl NfaModel {
    /// The set of the states that `s` reaches by reading `a`.
    pub open spec fn symbol_mask(self, s: u32, a: u8) -> u128 {
        if s < self.states.len() {
            or_fold(crate::moves::targets_with(self.states[s as int].moves(), a))
        } else {
            0
        }
    }

    /// The union of the `symbol_mask`s of the states below `upto` that the
    /// set `id` holds.
    pub open spec fn step_upto(self, id: u128, a: u8, upto: u32) -> u128
        decreases upto,
    {
        if upto == 0 {
            0
        } else {
            self.step_upto(id, a, (upto - 1) as u32) | (if has_bit(id, (upto - 1) as u32) {
                self.symbol_mask((upto - 1) as u32, a)
            } else {
                0
            })
        }
    }

    /// The successor of the set `id` on `a`: the union of the successors of
    /// its states.
    pub open spec fn subset_step(self, id: u128, a: u8) -> u128 {
        self.step_upto(id, a, 128)
    }

    /// The moves between sets as a graph on the state ids.
    pub open spec fn subset_edge(self) -> spec_fn(int, int) -> bool {
        |x: int, y: int|
            0 <= x < id_space() && (y == self.subset_step(x as u128, ZERO) || y
                == self.subset_step(x as u128, ONE))
    }

    /// The set of the start state alone.
    pub open spec fn subset_start(self) -> u128 {
        1u128 << self.start->Some_0
    }

    /// The moves between sets lead from the set of the start state to `id`.
    pub open spec fn subset_reached(self, id: u128) -> bool {
        crate::graph::reaches(self.subset_edge(), self.subset_start() as int, id as int)
    }

    /// The deterministic automaton of the subset construction: its states
    /// are the sets that are reached from the set of the start state, each
    /// with its two successors; a set accepts if it holds the first accept
    /// state.
    pub open spec fn subset_dfa(self) -> DfaModel {
        DfaModel {
            states: Map::new(
                |id: u128| self.subset_reached(id),
                |id: u128| (self.subset_step(id, ZERO), self.subset_step(id, ONE)),
            ),
            alphabet: (ZERO, ONE),
            start: Some(self.subset_start()),
            accept: Set::new(
                |id: u128| self.subset_reached(id) && id & (1u128 << self.accept[0]) != 0,
            ),
        }
    }

    /// The empty set leads to the empty set.
    pub proof fn lemma_step_of_empty(self, a: u8, upto: u32)
        requires
            upto <= 128,
        ensures
            self.step_upto(0, a, upto) == 0,
        decreases upto,
    {
        if upto > 0 {
            self.lemma_step_of_empty(a, (upto - 1) as u32);
            lemma_bit_of_zero((upto - 1) as u32);
            lemma_or_zero(0);
        }
    }

    /// The set of one state leads where the state leads.
    pub proof fn lemma_step_of_single(self, s: u32, a: u8, upto: u32)
        requires
            s < 128,
            upto <= 128,
        ensures
            self.step_upto(1u128 << s, a, upto) == (if s < upto {
                self.symbol_mask(s, a)
            } else {
                0
            }),
        decreases upto,
    {
        if upto > 0 {
            self.lemma_step_of_single(s, a, (upto - 1) as u32);
            lemma_bit_of_single(s, (upto - 1) as u32);
            lemma_or_zero(self.symbol_mask(s, a));
            lemma_or_zero(0);
        }
    }
}

/// A finite set of state ids has at most as many elements as there are ids.
pub proof fn lemma_id_set_bound(s: Set<u128>)
    requires
        s.finite(),
    ensures
        s.len() <= id_space(),
{
    let f = |x: u128| x as int;
    let t = s.map(f);
    assert(vstd::relations::injective_on(f, s));
    vstd::set_lib::lemma_map_size(s, t, f);
    vstd::set_lib::lemma_int_range(0, id_space());
    assert(t.subset_of(vstd::set_lib::set_int_range(0, id_space()))) by {
        assert forall|y: int| t.contains(y) implies vstd::set_lib::set_int_range(
            0,
            id_space(),
        ).contains(y) by {
            let x = choose|x: u128| s.contains(x) && y == f(x);
        }
    }
    vstd::set_lib::lemma_len_subset(t, vstd::set_lib::set_int_range(0, id_space()));
}

/// A sequence of distinct ids out of a finite set is at most as long as the
/// set is large.
pub proof fn lemma_distinct_within(s: Seq<u128>, dom: Set<u128>)
    requires
        s.no_duplicates(),
        dom.finite(),
        forall|i: int| 0 <= i < s.len() ==> dom.contains(#[trigger] s[i]),
    ensures
        s.len() <= dom.len(),
{
    s.unique_seq_to_set();
    assert(s.to_set().subset_of(dom)) by {
        assert forall|x: u128| s.to_set().contains(x) implies dom.contains(x) by {
            let i = choose|i: int| 0 <= i < s.len() && s[i] == x;
        }
    }
    vstd::set_lib::lemma_len_subset(s.to_set(), dom);
}

/// A state of a [`DFA01`]: where it leads on `0` and on `1`; 0 stands for
/// the empty set.
#[derive(Debug, Clone, Copy)]
pub struct State01 {
    zero_to: u128,
    one_to: u128,
}

impl View for State01 {
    type V = (u128, u128);

    closed spec fn view(&self) -> (u128, u128) {
        (self.zero_to, self.one_to)
    }
}

impl State01 {
    /// The state that leads to the empty set on both symbols.
    pub fn new() -> (s: State01)
        ensures
            s@ == (0u128, 0u128),
    {
        State01 { zero_to: 0, one_to: 0 }
    }

    /// Sets where the state leads on `input`, which is `0` or `1`.
    pub fn add_transition(&mut self, input: u8, to: u128)
        requires
            input == ZERO || input == ONE,
        ensures
            final(self)@ == (if input == ZERO {
                (to, old(self)@.1)
            } else {
                (old(self)@.0, to)
            }),
    {
        if input == ZERO {
            self.zero_to = to;
        } else {
            self.one_to = to;
        }
    }

    /// Where the state leads on `0` and on `1`.
    pub fn transitions(&self) -> (r: (u128, u128))
        ensures
            r == self@,
    {
        (self.zero_to, self.one_to)
    }
}

/// For each state of `nfa`, the sets that it reaches on `0` and on `1`.
fn symbol_masks(nfa: &NFA) -> (masks: Vec<State01>)
    requires
        nfa@.wf(),
        nfa@.states.len() <= 128,
        nfa@.alphabet == set![ZERO, ONE],
    ensures
        masks@.len() == nfa@.states.len(),
        forall|i: int|
            0 <= i < masks@.len() ==> (#[trigger] masks@[i])@ == (
                nfa@.symbol_mask(i as u32, ZERO),
                nfa@.symbol_mask(i as u32, ONE),
            ),
{
    let n: usize = nfa.get_states_iter().len();
    let mut masks: Vec<State01> = Vec::new();
    let mut id: usize = 0;
    while id < n
        invariant
            id <= n,
            n == nfa@.states.len(),
            n <= 128,
            nfa@.wf(),
            nfa@.alphabet == set![ZERO, ONE],
            masks@.len() == id,
            forall|i: int|
                0 <= i < masks@.len() ==> (#[trigger] masks@[i])@ == (
                    nfa@.symbol_mask(i as u32, ZERO),
                    nfa@.symbol_mask(i as u32, ONE),
                ),
        decreases n - id,
    {
        let groups: Vec<(u8, Vec<u32>)> = nfa.deltas(id as u32);
        let ghost moves = nfa@.states[id as int].moves();
        let mut state: State01 = State01::new();
        let mut j: usize = 0;
        while j < groups.len()
            invariant
                j <= groups.len(),
                id < n,
                n == nfa@.states.len(),
                n <= 128,
                nfa@.wf(),
                nfa@.alphabet == set![ZERO, ONE],
                moves == nfa@.states[id as int].moves(),
                crate::moves::grouped_by_symbol(moves, groups@),
                state@.0 == (if exists|i: int| 0 <= i < j && (#[trigger] groups@[i]).0 == ZERO {
                    nfa@.symbol_mask(id as u32, ZERO)
                } else {
                    0
                }),
                state@.1 == (if exists|i: int| 0 <= i < j && (#[trigger] groups@[i]).0 == ONE {
                    nfa@.symbol_mask(id as u32, ONE)
                } else {
                    0
                }),
            decreases groups.len() - j,
        {
            let input: u8 = groups[j].0;
            let targets: &Vec<u32> = &groups[j].1;
            proof {
                assert(groups@[j as int].1@ == crate::moves::targets_with(moves, input));
                assert forall|i: int| 0 <= i < targets@.len() implies (#[trigger] targets@[i])
                    < 128 by {
                    crate::moves::lemma_targets_with_member(moves, input, i);
                    let k = choose|k: int|
                        0 <= k < moves.len() && #[trigger] moves[k] == (input, targets@[i]);
                    assert(nfa@.states[id as int].moves()[k].1 < nfa@.states.len());
                }
                crate::moves::lemma_targets_with_member(moves, input, 0);
                let k = choose|k: int|
                    0 <= k < moves.len() && #[trigger] moves[k] == (input, targets@[0]);
                assert(nfa@.alphabet.contains(nfa@.states[id as int].moves()[k].0));
            }
            let to: u128 = encode_subset(targets);
            let ghost before = state@;
            state.add_transition(input, to);
            proof {
                assert(groups@[j as int].0 == input);
                if input == ZERO {
                    if exists|i: int| 0 <= i < j && (#[trigger] groups@[i]).0 == ONE {
                        let i = choose|i: int| 0 <= i < j && (#[trigger] groups@[i]).0 == ONE;
                        assert(0 <= i < j + 1 && groups@[i].0 == ONE);
                    }
                    if exists|i: int| 0 <= i < j + 1 && (#[trigger] groups@[i]).0 == ONE {
                        let i = choose|i: int| 0 <= i < j + 1 && (#[trigger] groups@[i]).0 == ONE;
                        assert(0 <= i < j && groups@[i].0 == ONE);
                    }
                } else {
                    if exists|i: int| 0 <= i < j && (#[trigger] groups@[i]).0 == ZERO {
                        let i = choose|i: int| 0 <= i < j && (#[trigger] groups@[i]).0 == ZERO;
                        assert(0 <= i < j + 1 && groups@[i].0 == ZERO);
                    }
                    if exists|i: int| 0 <= i < j + 1 && (#[trigger] groups@[i]).0 == ZERO {
                        let i = choose|i: int| 0 <= i < j + 1 && (#[trigger] groups@[i]).0 == ZERO;
                        assert(0 <= i < j && groups@[i].0 == ZERO);
                    }
                }
            }
            j += 1;
        }
        proof {
            if !(exists|i: int| 0 <= i < groups@.len() && (#[trigger] groups@[i]).0 == ZERO) {
                assert(crate::moves::targets_with(moves, ZERO).len() == 0);
            }
            if !(exists|i: int| 0 <= i < groups@.len() && (#[trigger] groups@[i]).0 == ONE) {
                assert(crate::moves::targets_with(moves, ONE).len() == 0);
            }
        }
        masks.push(state);
        id += 1;
    }
    masks
}

/// A deterministic automaton over `0` and `1`, kept as a map from state id
/// to state.
pub struct DFA01 {
    states: HashMap<u128, State01>,
    alphabet: (u8, u8),
    start_state: Option<u128>,
    accept_states: HashSet<u128>,
}

impl View for DFA01 {
    type V = DfaModel;

    closed spec fn view(&self) -> DfaModel {
        DfaModel {
            states: Map::new(|id: u128| self.states@.contains_key(id), |id: u128| self.states@[id]@),
            alphabet: self.alphabet,
            start: self.start_state,
            accept: self.accept_states@,
        }
    }
}

impl DfaModel {
    /// Where `id` leads on `input`, which is `0` or `1`.
    pub open spec fn next(self, id: u128, input: u8) -> u128 {
        if input == ZERO {
            self.states[id].0
        } else {
            self.states[id].1
        }
    }
}

/// The states of `map` agree with the subset construction of `nfa`.
spec fn steps_right(nfa: NfaModel, map: Map<u128, State01>) -> bool {
    forall|id: u128|
        map.contains_key(id) ==> (#[trigger] map[id])@ == (
            nfa.subset_step(id, ZERO),
            nfa.subset_step(id, ONE),
        )
}

/// Where the states of `map` lead is a state of `map` or waits on `stack`.
spec fn steps_known(nfa: NfaModel, map: Map<u128, State01>, stack: Seq<u128>) -> bool {
    forall|id: u128|
        map.contains_key(id) ==> (map.contains_key(#[trigger] nfa.subset_step(id, ZERO))
            || stack.contains(nfa.subset_step(id, ZERO))) && (map.contains_key(
            nfa.subset_step(id, ONE),
        ) || stack.contains(nfa.subset_step(id, ONE)))
}

impl DFA01 {
    /// The automaton without states.
    pub fn init_empty() -> (dfa: DFA01)
        ensures
            dfa@ == (DfaModel {
                states: Map::empty(),
                alphabet: (ZERO, ONE),
                start: None,
                accept: Set::empty(),
            }),
    {
        let dfa = DFA01 {
            states: HashMap::new(),
            alphabet: (ZERO, ONE),
            start_state: None,
            accept_states: HashSet::new(),
        };
        assert(dfa@.states =~= Map::empty());
        dfa
    }

    /// Puts a state that leads to the empty set under `id`; a state that was
    /// there is replaced.
    pub fn add_empty_state(&mut self, id: u128)
        ensures
            final(self)@ == (DfaModel {
                states: old(self)@.states.insert(id, (0u128, 0u128)),
                ..old(self)@
            }),
    {
        self.states.insert(id, State01::new());
        assert(self@.states =~= old(self)@.states.insert(id, (0u128, 0u128)));
    }

    /// The state under `id`; if there is none, a state that leads to the
    /// empty set is put there first.
    pub fn get_state_by_id(&mut self, id: u128) -> (s: State01)
        ensures
            old(self)@.states.contains_key(id) ==> final(self)@ == old(self)@ && s@
                == old(self)@.states[id],
            !old(self)@.states.contains_key(id) ==> s@ == (0u128, 0u128) && final(self)@ == (
            DfaModel { states: old(self)@.states.insert(id, (0u128, 0u128)), ..old(self)@ }),
    {
        if !self.states.contains_key(&id) {
            self.states.insert(id, State01::new());
            assert(self@.states =~= old(self)@.states.insert(id, (0u128, 0u128)));
        } else {
            assert(self@.states =~= old(self)@.states);
        }
        let found: Option<&State01> = self.states.get(&id);
        *found.unwrap()
    }

    /// Sets where the state `from` leads on `input`, which is `0` or `1`.
    pub fn add_transition(&mut self, from: u128, input: u8, to: u128)
        requires
            old(self)@.states.contains_key(from),
            input == ZERO || input == ONE,
        ensures
            final(self)@ == (DfaModel {
                states: old(self)@.states.insert(
                    from,
                    if input == ZERO {
                        (to, old(self)@.states[from].1)
                    } else {
                        (old(self)@.states[from].0, to)
                    },
                ),
                ..old(self)@
            }),
    {
        let found: Option<&State01> = self.states.get(&from);
        let mut state: State01 = *found.unwrap();
        state.add_transition(input, to);
        self.states.insert(from, state);
        assert(self@.states =~= old(self)@.states.insert(
            from,
            if input == ZERO {
                (to, old(self)@.states[from].1)
            } else {
                (old(self)@.states[from].0, to)
            },
        ));
    }

    /// Makes `id` the start state.
    pub fn set_start_state(&mut self, id: u128)
        ensures
            final(self)@ == (DfaModel { start: Some(id), ..old(self)@ }),
    {
        self.start_state = Some(id);
    }

    /// Makes `id` an accept state.
    pub fn set_accept_state(&mut self, id: u128)
        ensures
            final(self)@ == (DfaModel { accept: old(self)@.accept.insert(id), ..old(self)@ }),
    {
        self.accept_states.insert(id);
    }
}

impl DfaModel {
    /// The moves of the states as a graph on the state ids.
    pub open spec fn edge(self) -> spec_fn(int, int) -> bool {
        |x: int, y: int|
            0 <= x < id_space() && self.states.contains_key(x as u128) && (y
                == self.states[x as u128].0 || y == self.states[x as u128].1)
    }
}

/// The moves of the states of `m` as a graph on the state ids.
pub closed spec fn map_edge(m: Map<u128, State01>) -> spec_fn(int, int) -> bool {
    |x: int, y: int|
        0 <= x < id_space() && m.contains_key(x as u128) && (y == m[x as u128].zero_to || y
            == m[x as u128].one_to)
}

/// Every state of `m` leads to states of `m`.
pub closed spec fn map_closed(m: Map<u128, State01>) -> bool {
    forall|id: u128|
        m.contains_key(id) ==> m.contains_key((#[trigger] m[id]).zero_to) && m.contains_key(
            m[id].one_to,
        )
}

/// What the search for the reachable states keeps true: what it has reached
/// or still holds on its stack is a state that the start state reaches, the
/// start state is among these, and where a reached state leads is among
/// these too.
spec fn search_inv(m: Map<u128, State01>, start: u128, reached: Seq<u128>, stack: Seq<u128>) -> bool {
    &&& reached.no_duplicates()
    &&& forall|x: u128|
        #[trigger] reached.contains(x) ==> m.contains_key(x) && crate::graph::reaches(
            map_edge(m),
            start as int,
            x as int,
        )
    &&& forall|x: u128|
        #[trigger] stack.contains(x) ==> m.contains_key(x) && crate::graph::reaches(
            map_edge(m),
            start as int,
            x as int,
        )
    &&& reached.contains(start) || stack.contains(start)
    &&& forall|x: u128|
        reached.contains(x) ==> (reached.contains((#[trigger] m[x]).zero_to) || stack.contains(
            m[x].zero_to,
        )) && (reached.contains(m[x].one_to) || stack.contains(m[x].one_to))
}

proof fn lemma_search_start(m: Map<u128, State01>, start: u128)
    requires
        m.contains_key(start),
    ensures
        search_inv(m, start, Seq::empty(), seq![start]),
{
    crate::graph::lemma_reaches_self(map_edge(m), start as int);
    assert(seq![start][0] == start);
}

proof fn lemma_search_skip(m: Map<u128, State01>, start: u128, reached: Seq<u128>, stack: Seq<u128>)
    requires
        search_inv(m, start, reached, stack),
        stack.len() > 0,
        reached.contains(stack.last()),
    ensures
        search_inv(m, start, reached, stack.drop_last()),
{
    let rest = stack.drop_last();
    assert forall|y: u128| #[trigger] stack.contains(y) implies rest.contains(y) || y
        == stack.last() by {
        crate::graph::lemma_drop_last_contains(stack, y);
    }
    assert forall|y: u128| #[trigger] rest.contains(y) implies stack.contains(y) by {
        crate::graph::lemma_drop_last_contains(stack, y);
    }
    assert forall|x: u128| reached.contains(x) implies (reached.contains((#[trigger] m[x]).zero_to)
        || rest.contains(m[x].zero_to)) && (reached.contains(m[x].one_to) || rest.contains(
        m[x].one_to,
    )) by {
        let next = m[x];
        assert(reached.contains(next.zero_to) || stack.contains(next.zero_to));
        assert(reached.contains(next.one_to) || stack.contains(next.one_to));
    }
}

proof fn lemma_search_visit(m: Map<u128, State01>, start: u128, reached: Seq<u128>, stack: Seq<u128>)
    requires
        search_inv(m, start, reached, stack),
        map_closed(m),
        m.dom().finite(),
        stack.len() > 0,
        !reached.contains(stack.last()),
    ensures
        m.contains_key(stack.last()),
        search_inv(
            m,
            start,
            reached.push(stack.last()),
            stack.drop_last().push(m[stack.last()].zero_to).push(m[stack.last()].one_to),
        ),
        reached.len() < m.dom().len(),
{
    let x = stack.last();
    let rest = stack.drop_last();
    let edge = map_edge(m);
    let zero = m[x].zero_to;
    let one = m[x].one_to;
    let stack1 = rest.push(zero);
    let stack2 = stack1.push(one);
    let reached2 = reached.push(x);
    assert(stack.contains(x)) by {
        assert(stack[stack.len() - 1] == x);
    }
    assert forall|y: u128| #[trigger] stack.contains(y) implies rest.contains(y) || y == x by {
        crate::graph::lemma_drop_last_contains(stack, y);
    }
    assert forall|y: u128| #[trigger] rest.contains(y) implies stack.contains(y) by {
        crate::graph::lemma_drop_last_contains(stack, y);
    }
    assert forall|y: u128| #[trigger] reached2.contains(y) implies reached.contains(y) || y
        == x by {
        crate::graph::lemma_push_contains(reached, x, y);
    }
    assert forall|y: u128| #[trigger] reached.contains(y) implies reached2.contains(y) by {
        crate::graph::lemma_push_contains(reached, x, y);
    }
    assert(reached2.contains(x)) by {
        crate::graph::lemma_push_contains(reached, x, x);
    }
    assert forall|y: u128| #[trigger] stack2.contains(y) implies rest.contains(y) || y == zero
        || y == one by {
        crate::graph::lemma_push_contains(rest, zero, y);
        crate::graph::lemma_push_contains(stack1, one, y);
    }
    assert forall|y: u128| #[trigger] rest.contains(y) implies stack2.contains(y) by {
        crate::graph::lemma_push_contains(rest, zero, y);
        crate::graph::lemma_push_contains(stack1, one, y);
    }
    assert(stack2.contains(zero) && stack2.contains(one)) by {
        crate::graph::lemma_push_contains(rest, zero, zero);
        crate::graph::lemma_push_contains(stack1, one, zero);
        crate::graph::lemma_push_contains(stack1, one, one);
    }
    assert(m.contains_key(x));
    let next = m[x];
    assert(m.contains_key(next.zero_to) && m.contains_key(next.one_to));
    crate::graph::lemma_push_no_duplicates(reached, x);
    assert(edge(x as int, zero as int));
    assert(edge(x as int, one as int));
    crate::graph::lemma_reaches_step(edge, start as int, x as int, zero as int);
    crate::graph::lemma_reaches_step(edge, start as int, x as int, one as int);
    assert forall|i: int| 0 <= i < reached2.len() implies m.dom().contains(
        #[trigger] reached2[i],
    ) by {
        assert(reached2.contains(reached2[i]));
    }
    lemma_distinct_within(reached2, m.dom());
    assert forall|y: u128| reached2.contains(y) implies (reached2.contains(
        (#[trigger] m[y]).zero_to,
    ) || stack2.contains(m[y].zero_to)) && (reached2.contains(m[y].one_to) || stack2.contains(
        m[y].one_to,
    )) by {
        if y != x {
            assert(reached.contains(y));
            let after = m[y];
            assert(reached.contains(after.zero_to) || stack.contains(after.zero_to));
            assert(reached.contains(after.one_to) || stack.contains(after.one_to));
        }
    }
}

proof fn lemma_search_done(m: Map<u128, State01>, start: u128, reached: Seq<u128>, id: u128)
    requires
        search_inv(m, start, reached, Seq::empty()),
    ensures
        reached.contains(id) <==> crate::graph::reaches(map_edge(m), start as int, id as int),
{
    let edge = map_edge(m);
    let stack = Seq::<u128>::empty();
    let held = Set::new(|y: int| 0 <= y < id_space() && reached.contains(y as u128));
    assert(crate::graph::closed_under(edge, held)) by {
        assert forall|a: int, b: int| held.contains(a) && #[trigger] edge(a, b) implies held.contains(
            b,
        ) by {
            let x = a as u128;
            assert(reached.contains(x));
            let next = m[x];
            assert(!stack.contains(next.zero_to));
            assert(!stack.contains(next.one_to));
        }
    }
    assert(!stack.contains(start));
    assert(held.contains(start as int));
    if crate::graph::reaches(edge, start as int, id as int) {
        crate::graph::lemma_closed_holds_reachable(edge, held, start as int, id as int);
    }
}

/// The ids that `start` reaches in `states`, each once.
fn search_reachable(states: &HashMap<u128, State01>, start: u128) -> (reached: Vec<u128>)
    requires
        states@.contains_key(start),
        map_closed(states@),
    ensures
        reached@.no_duplicates(),
        forall|id: u128|
            reached@.contains(id) <==> crate::graph::reaches(
                map_edge(states@),
                start as int,
                id as int,
            ),
        forall|i: int| 0 <= i < reached@.len() ==> states@.contains_key(#[trigger] reached@[i]),
{
    let mut seen: HashSet<u128> = HashSet::new();
    let mut reached: Vec<u128> = Vec::new();
    let mut stack: Vec<u128> = Vec::new();
    stack.push(start);
    proof {
        lemma_search_start(states@, start);
        assert(stack@ =~= seq![start]);
        assert(reached@ =~= Seq::empty());
        assert(seen@ =~= reached@.to_set());
    }
    while stack.len() > 0
        invariant
            map_closed(states@),
            states@.dom().finite(),
            seen@ == reached@.to_set(),
            search_inv(states@, start, reached@, stack@),
            reached@.len() <= states@.dom().len(),
        decreases states@.dom().len() - reached@.len(), stack@.len(),
    {
        let ghost stack0 = stack@;
        let ghost reached0 = reached@;
        let x: u128 = stack.pop().unwrap();
        assert(stack@ =~= stack0.drop_last());
        if seen.contains(&x) {
            proof {
                lemma_search_skip(states@, start, reached0, stack0);
            }
            continue ;
        }
        proof {
            lemma_search_visit(states@, start, reached0, stack0);
        }
        seen.insert(x);
        reached.push(x);
        let state: State01 = *states.get(&x).unwrap();
        stack.push(state.zero_to);
        stack.push(state.one_to);
        proof {
            assert(seen@ =~= reached@.to_set()) by {
                assert forall|y: u128| seen@.contains(y) <==> reached@.to_set().contains(y) by {
                    crate::graph::lemma_push_contains(reached0, x, y);
                }
            }
        }
    }
    proof {
        assert(stack@ =~= Seq::empty());
        assert forall|id: u128|
            reached@.contains(id) <==> crate::graph::reaches(
                map_edge(states@),
                start as int,
                id as int,
            ) by {
            lemma_search_done(states@, start, reached@, id);
        }
        assert forall|i: int| 0 <= i < reached@.len() implies states@.contains_key(
            #[trigger] reached@[i],
        ) by {
            assert(reached@.contains(reached@[i]));
        }
    }
    reached
}

/// `masks` holds, for each state of `nfa`, the sets that it reaches on `0`
/// and on `1`.
spec fn masks_right(nfa: NfaModel, masks: Seq<State01>) -> bool {
    &&& masks.len() == nfa.states.len()
    &&& masks.len() <= 128
    &&& forall|i: int|
        0 <= i < masks.len() ==> (#[trigger] masks[i])@ == (
            nfa.symbol_mask(i as u32, ZERO),
            nfa.symbol_mask(i as u32, ONE),
        )
}

/// Where the set `id` leads: the union of where its states lead.
fn subset_successors(masks: &Vec<State01>, id: u128, Ghost(nfa): Ghost<NfaModel>) -> (r: State01)
    requires
        masks_right(nfa, masks@),
    ensures
        r@ == (nfa.subset_step(id, ZERO), nfa.subset_step(id, ONE)),
{
    let n: usize = masks.len();
    let mut zero_to: u128 = 0;
    let mut one_to: u128 = 0;
    let mut bit: u32 = 0;
    while bit < 128
        invariant
            bit <= 128,
            n == masks@.len(),
            masks_right(nfa, masks@),
            zero_to == nfa.step_upto(id, ZERO, bit),
            one_to == nfa.step_upto(id, ONE, bit),
        decreases 128 - bit,
    {
        proof {
            lemma_or_zero(zero_to);
            lemma_or_zero(one_to);
        }
        if (id >> bit) & 1 == 1 && (bit as usize) < n {
            let state: State01 = masks[bit as usize];
            zero_to = zero_to | state.zero_to;
            one_to = one_to | state.one_to;
        }
        bit += 1;
    }
    State01 { zero_to, one_to }
}

/// The states for the sets of one state each and for the empty set.
fn seed_singletons(masks: &Vec<State01>, Ghost(nfa): Ghost<NfaModel>) -> (map: HashMap<
    u128,
    State01,
>)
    requires
        masks_right(nfa, masks@),
    ensures
        steps_right(nfa, map@),
        forall|j: u32| j < masks@.len() ==> map@.contains_key(#[trigger] (1u128 << j)),
        forall|id: u128| #[trigger]
            map@.contains_key(id) ==> id == 0 || exists|j: u32|
                j < masks@.len() && id == #[trigger] (1u128 << j),
        map@.contains_key(0),
{
    let n: usize = masks.len();
    let mut map: HashMap<u128, State01> = HashMap::new();
    let mut i: u32 = 0;
    while (i as usize) < n
        invariant
            i <= n,
            n == masks@.len(),
            masks_right(nfa, masks@),
            steps_right(nfa, map@),
            forall|j: u32| j < i ==> map@.contains_key(#[trigger] (1u128 << j)),
            forall|id: u128| #[trigger]
                map@.contains_key(id) ==> exists|j: u32| j < i && id == #[trigger] (1u128 << j),
        decreases n - i,
    {
        let ghost before = map@;
        let id: u128 = 1u128 << i;
        map.insert(id, masks[i as usize]);
        proof {
            nfa.lemma_step_of_single(i, ZERO, 128);
            nfa.lemma_step_of_single(i, ONE, 128);
            assert forall|x: u128| map@.contains_key(x) implies (#[trigger] map@[x])@ == (
                nfa.subset_step(x, ZERO),
                nfa.subset_step(x, ONE),
            ) by {
                if x != id {
                    assert(before.contains_key(x));
                    assert(map@[x] == before[x]);
                }
            }
            assert forall|x: u128| #[trigger] map@.contains_key(x) implies exists|j: u32|
                j < i + 1 && x == #[trigger] (1u128 << j) by {
                if x != id {
                    assert(before.contains_key(x));
                    let j = choose|j: u32| j < i && x == #[trigger] (1u128 << j);
                    assert(j < i + 1 && x == 1u128 << j);
                } else {
                    assert(i < i + 1 && x == 1u128 << i);
                }
            }
        }
        i += 1;
    }
    let ghost before = map@;
    map.insert(0, State01::new());
    proof {
        nfa.lemma_step_of_empty(ZERO, 128);
        nfa.lemma_step_of_empty(ONE, 128);
        assert forall|x: u128| map@.contains_key(x) implies (#[trigger] map@[x])@ == (
            nfa.subset_step(x, ZERO),
            nfa.subset_step(x, ONE),
        ) by {
            if x != 0 {
                assert(before.contains_key(x));
                assert(map@[x] == before[x]);
            }
        }
        assert forall|x: u128| #[trigger] map@.contains_key(x) implies x == 0 || exists|j: u32|
            j < masks@.len() && x == #[trigger] (1u128 << j) by {
            if x != 0 {
                assert(before.contains_key(x));
            }
        }
    }
    map
}

/// The sets that the states of one state each lead to and that have no state
/// yet.
fn seed_stack(masks: &Vec<State01>, map: &HashMap<u128, State01>, Ghost(nfa): Ghost<NfaModel>) -> (stack:
    Vec<u128>)
    requires
        masks_right(nfa, masks@),
        steps_right(nfa, map@),
        forall|j: u32| j < masks@.len() ==> map@.contains_key(#[trigger] (1u128 << j)),
        forall|id: u128| #[trigger]
            map@.contains_key(id) ==> id == 0 || exists|j: u32|
                j < masks@.len() && id == #[trigger] (1u128 << j),
        map@.contains_key(0),
    ensures
        steps_known(nfa, map@, stack@),
{
    let n: usize = masks.len();
    let mut stack: Vec<u128> = Vec::new();
    let mut i: u32 = 0;
    while (i as usize) < n
        invariant
            i <= n,
            n == masks@.len(),
            masks_right(nfa, masks@),
            forall|j: u32|
                j < i ==> (map@.contains_key(nfa.subset_step(#[trigger] (1u128 << j), ZERO))
                    || stack@.contains(nfa.subset_step(1u128 << j, ZERO))) && (map@.contains_key(
                    nfa.subset_step(1u128 << j, ONE),
                ) || stack@.contains(nfa.subset_step(1u128 << j, ONE))),
        decreases n - i,
    {
        let state: State01 = masks[i as usize];
        let ghost before = stack@;
        if !map.contains_key(&state.zero_to) {
            stack.push(state.zero_to);
        }
        let ghost middle = stack@;
        if !map.contains_key(&state.one_to) {
            stack.push(state.one_to);
        }
        proof {
            nfa.lemma_step_of_single(i, ZERO, 128);
            nfa.lemma_step_of_single(i, ONE, 128);
            assert forall|x: u128| before.contains(x) implies #[trigger] stack@.contains(x) by {
                crate::graph::lemma_push_contains(before, state.zero_to, x);
                crate::graph::lemma_push_contains(middle, state.one_to, x);
            }
            crate::graph::lemma_push_contains(before, state.zero_to, state.zero_to);
            crate::graph::lemma_push_contains(middle, state.one_to, state.zero_to);
            crate::graph::lemma_push_contains(middle, state.one_to, state.one_to);
            assert forall|j: u32| j < i + 1 implies (map@.contains_key(
                nfa.subset_step(#[trigger] (1u128 << j), ZERO),
            ) || stack@.contains(nfa.subset_step(1u128 << j, ZERO))) && (map@.contains_key(
                nfa.subset_step(1u128 << j, ONE),
            ) || stack@.contains(nfa.subset_step(1u128 << j, ONE))) by {
                if j < i {
                    let z = nfa.subset_step(1u128 << j, ZERO);
                    let o = nfa.subset_step(1u128 << j, ONE);
                    assert(map@.contains_key(z) || before.contains(z));
                    assert(map@.contains_key(o) || before.contains(o));
                }
            }
        }
        i += 1;
    }
    proof {
        nfa.lemma_step_of_empty(ZERO, 128);
        nfa.lemma_step_of_empty(ONE, 128);
        assert forall|id: u128| map@.contains_key(id) implies (map@.contains_key(
            #[trigger] nfa.subset_step(id, ZERO),
        ) || stack@.contains(nfa.subset_step(id, ZERO))) && (map@.contains_key(
            nfa.subset_step(id, ONE),
        ) || stack@.contains(nfa.subset_step(id, ONE))) by {
            if id != 0 {
                let j = choose|j: u32| j < masks@.len() && id == #[trigger] (1u128 << j);
                assert(j < i);
            }
        }
    }
    stack
}

proof fn lemma_close_skip(nfa: NfaModel, map: Map<u128, State01>, stack: Seq<u128>)
    requires
        steps_known(nfa, map, stack),
        stack.len() > 0,
        map.contains_key(stack.last()),
    ensures
        steps_known(nfa, map, stack.drop_last()),
{
    let rest = stack.drop_last();
    assert forall|id: u128| map.contains_key(id) implies (map.contains_key(
        #[trigger] nfa.subset_step(id, ZERO),
    ) || rest.contains(nfa.subset_step(id, ZERO))) && (map.contains_key(nfa.subset_step(id, ONE))
        || rest.contains(nfa.subset_step(id, ONE))) by {
        crate::graph::lemma_drop_last_contains(stack, nfa.subset_step(id, ZERO));
        crate::graph::lemma_drop_last_contains(stack, nfa.subset_step(id, ONE));
    }
}

proof fn lemma_close_visit(
    nfa: NfaModel,
    map: Map<u128, State01>,
    stack: Seq<u128>,
    state: State01,
    after: Seq<u128>,
)
    requires
        steps_right(nfa, map),
        steps_known(nfa, map, stack),
        map.dom().finite(),
        stack.len() > 0,
        !map.contains_key(stack.last()),
        state@ == (nfa.subset_step(stack.last(), ZERO), nfa.subset_step(stack.last(), ONE)),
        forall|x: u128| stack.drop_last().contains(x) ==> #[trigger] after.contains(x),
        map.insert(stack.last(), state).contains_key(state@.0) || after.contains(state@.0),
        map.insert(stack.last(), state).contains_key(state@.1) || after.contains(state@.1),
    ensures
        steps_right(nfa, map.insert(stack.last(), state)),
        steps_known(nfa, map.insert(stack.last(), state), after),
        map.dom().len() < id_space(),
{
    let x = stack.last();
    let rest = stack.drop_last();
    let grown = map.insert(x, state);
    assert forall|id: u128| grown.contains_key(id) implies (#[trigger] grown[id])@ == (
        nfa.subset_step(id, ZERO),
        nfa.subset_step(id, ONE),
    ) by {
        if id != x {
            assert(map.contains_key(id));
            assert(grown[id] == map[id]);
        }
    }
    assert forall|id: u128| grown.contains_key(id) implies (grown.contains_key(
        #[trigger] nfa.subset_step(id, ZERO),
    ) || after.contains(nfa.subset_step(id, ZERO))) && (grown.contains_key(
        nfa.subset_step(id, ONE),
    ) || after.contains(nfa.subset_step(id, ONE))) by {
        if id != x {
            assert(map.contains_key(id));
            crate::graph::lemma_drop_last_contains(stack, nfa.subset_step(id, ZERO));
            crate::graph::lemma_drop_last_contains(stack, nfa.subset_step(id, ONE));
        }
    }
    assert(grown.dom() =~= map.dom().insert(x));
    lemma_id_set_bound(grown.dom());
}

/// Gives every set on `stack`, and every set that these lead to, its state.
fn close_subsets(
    masks: &Vec<State01>,
    map: &mut HashMap<u128, State01>,
    stack: Vec<u128>,
    Ghost(nfa): Ghost<NfaModel>,
)
    requires
        masks_right(nfa, masks@),
        steps_right(nfa, old(map)@),
        steps_known(nfa, old(map)@, stack@),
    ensures
        steps_right(nfa, final(map)@),
        steps_known(nfa, final(map)@, Seq::empty()),
        forall|id: u128| old(map)@.contains_key(id) ==> #[trigger] final(map)@.contains_key(id),
{
    let mut stack = stack;
    proof {
        lemma_id_set_bound(map@.dom());
    }
    while stack.len() > 0
        invariant
            masks_right(nfa, masks@),
            steps_right(nfa, map@),
            steps_known(nfa, map@, stack@),
            map@.dom().finite(),
            map@.dom().len() <= id_space(),
            forall|id: u128| old(map)@.contains_key(id) ==> #[trigger] map@.contains_key(id),
        decreases id_space() - map@.dom().len(), stack@.len(),
    {
        let ghost stack0 = stack@;
        let ghost map0 = map@;
        let id: u128 = stack.pop().unwrap();
        assert(stack@ =~= stack0.drop_last());
        if map.contains_key(&id) {
            proof {
                lemma_close_skip(nfa, map0, stack0);
            }
            continue ;
        }
        let state: State01 = subset_successors(masks, id, Ghost(nfa));
        map.insert(id, state);
        let ghost rest = stack@;
        if !map.contains_key(&state.one_to) {
            stack.push(state.one_to);
        }
        let ghost middle = stack@;
        if !map.contains_key(&state.zero_to) {
            stack.push(state.zero_to);
        }
        proof {
            assert forall|x: u128| rest.contains(x) implies #[trigger] stack@.contains(x) by {
                crate::graph::lemma_push_contains(rest, state.one_to, x);
                crate::graph::lemma_push_contains(middle, state.zero_to, x);
            }
            crate::graph::lemma_push_contains(rest, state.one_to, state.one_to);
            crate::graph::lemma_push_contains(middle, state.zero_to, state.one_to);
            crate::graph::lemma_push_contains(middle, state.zero_to, state.zero_to);
            lemma_close_visit(nfa, map0, stack0, state, stack@);
            assert(map@.dom() =~= map0.dom().insert(id));
            lemma_id_set_bound(map@.dom());
        }
    }
    assert(stack@ =~= Seq::empty());
}

/// The states of `map` under the ids of `reached`.
fn keep_reached(map: &HashMap<u128, State01>, reached: &Vec<u128>) -> (kept: HashMap<u128, State01>)
    requires
        forall|i: int| 0 <= i < reached@.len() ==> map@.contains_key(#[trigger] reached@[i]),
    ensures
        forall|id: u128| #[trigger] kept@.contains_key(id) <==> reached@.contains(id),
        forall|id: u128| kept@.contains_key(id) ==> #[trigger] kept@[id] == map@[id],
{
    let mut kept: HashMap<u128, State01> = HashMap::new();
    let mut i: usize = 0;
    while i < reached.len()
        invariant
            i <= reached.len(),
            forall|i: int| 0 <= i < reached@.len() ==> map@.contains_key(#[trigger] reached@[i]),
            forall|id: u128|
                #[trigger] kept@.contains_key(id) <==> reached@.subrange(0, i as int).contains(id),
            forall|id: u128| kept@.contains_key(id) ==> #[trigger] kept@[id] == map@[id],
        decreases reached.len() - i,
    {
        let id: u128 = reached[i];
        let ghost before = kept@;
        let ghost done = reached@.subrange(0, i as int);
        assert(reached@.subrange(0, i + 1) =~= done.push(id));
        assert(map@.contains_key(reached@[i as int]));
        let state: State01 = *map.get(&id).unwrap();
        kept.insert(id, state);
        proof {
            assert forall|x: u128| #[trigger] kept@.contains_key(x) <==> done.push(id).contains(
                x,
            ) by {
                crate::graph::lemma_push_contains(done, id, x);
            }
            assert forall|x: u128| kept@.contains_key(x) implies #[trigger] kept@[x] == map@[x] by {
                if x != id {
                    assert(before.contains_key(x));
                }
            }
        }
        i += 1;
    }
    assert(reached@.subrange(0, reached@.len() as int) =~= reached@);
    kept
}

/// The ids of `reached` that hold the state `accept`.
fn accepting_subsets(reached: &Vec<u128>, accept: u32) -> (r: HashSet<u128>)
    requires
        accept < 128,
    ensures
        forall|id: u128|
            #[trigger] r@.contains(id) <==> reached@.contains(id) && id & (1u128 << accept) != 0,
{
    let mut r: HashSet<u128> = HashSet::new();
    let bit: u128 = 1u128 << accept;
    let mut i: usize = 0;
    while i < reached.len()
        invariant
            i <= reached.len(),
            bit == 1u128 << accept,
            forall|id: u128|
                #[trigger] r@.contains(id) <==> reached@.subrange(0, i as int).contains(id) && id
                    & bit != 0,
        decreases reached.len() - i,
    {
        let id: u128 = reached[i];
        let ghost done = reached@.subrange(0, i as int);
        assert(reached@.subrange(0, i + 1) =~= done.push(id));
        if id & bit != 0 {
            r.insert(id);
        }
        proof {
            assert forall|x: u128| #[trigger]
                r@.contains(x) <==> done.push(id).contains(x) && x & bit != 0 by {
                crate::graph::lemma_push_contains(done, id, x);
            }
        }
        i += 1;
    }
    assert(reached@.subrange(0, reached@.len() as int) =~= reached@);
    r
}

/// In a map that agrees with the subset construction and holds where its
/// states lead, a set is reached along the states of the map if and only if
/// the subset construction reaches it.
proof fn lemma_map_reaches(nfa: NfaModel, map: Map<u128, State01>, start: u128, id: u128)
    requires
        steps_right(nfa, map),
        steps_known(nfa, map, Seq::empty()),
        map.contains_key(start),
    ensures
        crate::graph::reaches(map_edge(map), start as int, id as int) <==> crate::graph::reaches(
            nfa.subset_edge(),
            start as int,
            id as int,
        ),
        map_closed(map),
{
    let small = map_edge(map);
    let large = nfa.subset_edge();
    let none = Seq::<u128>::empty();
    assert forall|x: int, y: int| #[trigger] small(x, y) implies large(x, y) by {
        let state = map[x as u128];
        assert(state@ == (nfa.subset_step(x as u128, ZERO), nfa.subset_step(x as u128, ONE)));
    }
    if crate::graph::reaches(small, start as int, id as int) {
        crate::graph::lemma_reaches_mono(small, large, start as int, id as int);
    }
    let held = Set::new(
        |y: int|
            0 <= y < id_space() && map.contains_key(y as u128) && crate::graph::reaches(
                small,
                start as int,
                y,
            ),
    );
    assert(crate::graph::closed_under(large, held)) by {
        assert forall|a: int, b: int| held.contains(a) && #[trigger] large(
            a,
            b,
        ) implies held.contains(b) by {
            let x = a as u128;
            let state = map[x];
            let z = nfa.subset_step(x, ZERO);
            let o = nfa.subset_step(x, ONE);
            assert(state@ == (z, o));
            assert(map.contains_key(z) || none.contains(z));
            assert(map.contains_key(o) || none.contains(o));
            assert(small(a, b));
            crate::graph::lemma_reaches_step(small, start as int, a, b);
        }
    }
    crate::graph::lemma_reaches_self(small, start as int);
    assert(held.contains(start as int));
    if crate::graph::reaches(large, start as int, id as int) {
        crate::graph::lemma_closed_holds_reachable(large, held, start as int, id as int);
    }
    assert forall|x: u128| map.contains_key(x) implies map.contains_key(
        (#[trigger] map[x]).zero_to,
    ) && map.contains_key(map[x].one_to) by {
        let state = map[x];
        let z = nfa.subset_step(x, ZERO);
        let o = nfa.subset_step(x, ONE);
        assert(state@ == (z, o));
        assert(map.contains_key(z) || none.contains(z));
        assert(map.contains_key(o) || none.contains(o));
    }
}

/// A hash set holds finitely many symbols.
proof fn lemma_symbols_finite(s: &HashSet<u8>)
    ensures
        s@.finite(),
{
    let keys = vstd::std_specs::iter::IteratorSpec::remaining(
        &vstd::std_specs::hash::spec_hash_keys_iter(s),
    );
    vstd::std_specs::hash::axiom_spec_hash_keys_iter(s);
    vstd::seq_lib::seq_to_set_is_finite(keys.unref());
}

impl DFA01 {
    /// The subset construction: see [`NfaModel::subset_dfa`]. It fails on
    /// more than 128 states, and then on an alphabet other than `{0, 1}`.
    pub fn build_dfa_from_nfa(nfa: &NFA) -> (r: Result<DFA01, DfaError>)
        requires
            nfa@.wf(),
            nfa@.start matches Some(s0) && s0 < nfa@.states.len(),
            nfa@.accept.len() > 0,
            nfa@.states.len() <= 128 ==> nfa@.accept[0] < 128,
        ensures
            match r {
                Ok(dfa) => nfa@.states.len() <= 128 && nfa@.alphabet == set![ZERO, ONE] && dfa@
                    == nfa@.subset_dfa(),
                Err(DfaError::TooManyStates) => nfa@.states.len() > 128,
                Err(DfaError::UnsupportedAlphabet) => nfa@.states.len() <= 128 && nfa@.alphabet
                    != set![ZERO, ONE],
                Err(DfaError::MalformedAutomaton) => false,
            },
    {
        let n: usize = nfa.get_states_iter().len();
        if n > MAX_STATES {
            return Err(DfaError::TooManyStates);
        }
        let alphabet: &HashSet<u8> = nfa.alphabet();
        let binary: bool = alphabet.len() == 2 && alphabet.contains(&ZERO) && alphabet.contains(
            &ONE,
        );
        proof {
            let both = set![ZERO, ONE];
            assert(both.len() == 2) by {
                assert(both =~= Set::<u8>::empty().insert(ZERO).insert(ONE));
            }
            lemma_symbols_finite(alphabet);
            if binary {
                assert(alphabet@.len() == 2);
                assert(both.subset_of(alphabet@));
                vstd::set_lib::lemma_subset_equality(both, alphabet@);
            }
            if alphabet@ == both {
                assert(alphabet@.contains(ZERO) && alphabet@.contains(ONE));
            }
        }
        if !binary {
            return Err(DfaError::UnsupportedAlphabet);
        }
        let start_bit: u32 = nfa.start().unwrap();
        let start: u128 = 1u128 << start_bit;
        let masks: Vec<State01> = symbol_masks(nfa);
        let mut map: HashMap<u128, State01> = seed_singletons(&masks, Ghost(nfa@));
        let stack: Vec<u128> = seed_stack(&masks, &map, Ghost(nfa@));
        close_subsets(&masks, &mut map, stack, Ghost(nfa@));
        proof {
            assert(map@.contains_key(1u128 << start_bit));
            lemma_map_reaches(nfa@, map@, start, start);
        }
        let reached: Vec<u128> = search_reachable(&map, start);
        let kept: HashMap<u128, State01> = keep_reached(&map, &reached);
        let accept_states: HashSet<u128> = accepting_subsets(&reached, nfa.accepts()[0]);
        let dfa = DFA01 {
            states: kept,
            alphabet: (ZERO, ONE),
            start_state: Some(start),
            accept_states,
        };
        proof {
            let model = nfa@.subset_dfa();
            assert forall|id: u128| reached@.contains(id) <==> nfa@.subset_reached(id) by {
                lemma_map_reaches(nfa@, map@, start, id);
            }
            assert(dfa@.states =~= model.states) by {
                assert forall|id: u128| dfa@.states.contains_key(id) implies dfa@.states[id]
                    == model.states[id] by {
                    assert(kept@.contains_key(id));
                    assert(kept@[id] == map@[id]);
                    assert(reached@.contains(id));
                    let i = choose|i: int| 0 <= i < reached@.len() && reached@[i] == id;
                    assert(map@.contains_key(reached@[i]));
                    let state = map@[id];
                    assert(state@ == (nfa@.subset_step(id, ZERO), nfa@.subset_step(id, ONE)));
                }
            }
            assert(dfa@.accept =~= model.accept);
        }
        Ok(dfa)
    }
}

/// The members of `s`, each once, in the order in which the set hands them
/// out.
pub fn members(s: &HashSet<u128>) -> (v: Vec<u128>)
    ensures
        v@.to_set() == s@,
        v@.no_duplicates(),
{
    let mut v: Vec<u128> = Vec::new();
    let ghost full = vstd::std_specs::iter::IteratorSpec::remaining(
        &vstd::std_specs::hash::spec_hash_keys_iter(s),
    ).unref();
    proof {
        vstd::std_specs::hash::axiom_spec_hash_keys_iter(s);
    }
    for x in it: s.iter()
        invariant
            it.seq().unref() == full,
            v@ == full.take(it.index() as int),
    {
        assert(full[it.index() as int] == *x);
        v.push(*x);
        assert(v@ =~= full.take(it.index() + 1));
    }
    assert(v@ =~= full);
    assert(full.no_duplicates()) by {
        let keys = vstd::std_specs::iter::IteratorSpec::remaining(
            &vstd::std_specs::hash::spec_hash_keys_iter(s),
        );
        assert forall|i: int, j: int| 0 <= i < full.len() && 0 <= j < full.len() && i
            != j implies full[i] != full[j] by {
            assert(keys[i] != keys[j]);
        }
    }
    v
}

/// The ids of `entries` go up strictly.
pub open spec fn ascending_ids(entries: Seq<(u128, State01)>) -> bool {
    forall|i: int, j: int| 0 <= i < j < entries.len() ==> entries[i].0 < entries[j].0
}

/// `entries` holds exactly the states of `map`, each under its id.
pub open spec fn entries_of(map: Map<u128, State01>, entries: Seq<(u128, State01)>) -> bool {
    &&& forall|i: int|
        0 <= i < entries.len() ==> map.contains_key((#[trigger] entries[i]).0) && map[entries[i].0]
            == entries[i].1
    &&& forall|id: u128| #[trigger]
        map.contains_key(id) ==> exists|i: int| 0 <= i < entries.len() && (#[trigger] entries[i]).0
            == id
}

/// `itertools::Itertools::sorted_by_key` on the entries of the map, with
/// the id as key: the states of `map`, each once with its id, the ids in
/// ascending order.
#[verifier::external_body]
fn sorted_entries(map: &HashMap<u128, State01>) -> (r: Vec<(u128, State01)>)
    ensures
        ascending_ids(r@),
        entries_of(map@, r@),
{
    map.iter().sorted_by_key(|entry| entry.0).map(|entry| (*entry.0, *entry.1)).collect()
}

impl DfaModel {
    /// The number of states with an id below `id`: the place of `id` among
    /// the ids in ascending order.
    pub open spec fn rank(self, id: u128) -> nat {
        self.states.dom().filter(|x: u128| x < id).len()
    }

    /// The start state is a state, every state leads to states and the
    /// accept states are states.
    pub open spec fn closed(self) -> bool {
        &&& self.start matches Some(s) && self.states.contains_key(s)
        &&& forall|id: u128|
            self.states.contains_key(id) ==> self.states.contains_key(
                (#[trigger] self.states[id]).0,
            ) && self.states.contains_key(self.states[id].1)
        &&& forall|id: u128| #[trigger] self.accept.contains(id) ==> self.states.contains_key(id)
    }
}

/// In ascending ids, the place of an id is the number of ids below it.
pub proof fn lemma_rank_of_entry(dom: Set<u128>, ids: Seq<u128>, i: int)
    requires
        forall|a: int, b: int| 0 <= a < b < ids.len() ==> ids[a] < ids[b],
        forall|k: int| 0 <= k < ids.len() ==> dom.contains(#[trigger] ids[k]),
        forall|id: u128| #[trigger]
            dom.contains(id) ==> exists|k: int| 0 <= k < ids.len() && #[trigger] ids[k] == id,
        0 <= i <= ids.len(),
    ensures
        i < ids.len() ==> dom.filter(|x: u128| x < ids[i]).len() == i,
        i == ids.len() ==> dom.len() == i && dom.finite(),
{
    let front = ids.take(i);
    assert(front.no_duplicates());
    front.unique_seq_to_set();
    if i < ids.len() {
        let below = dom.filter(|x: u128| x < ids[i]);
        assert(below =~= front.to_set()) by {
            assert forall|x: u128| below.contains(x) implies front.to_set().contains(x) by {
                let k = choose|k: int| 0 <= k < ids.len() && #[trigger] ids[k] == x;
                if k >= i {
                    if k > i {
                        assert(ids[i] < ids[k]);
                    }
                }
                assert(front[k] == x);
            }
            assert forall|x: u128| front.to_set().contains(x) implies below.contains(x) by {
                let k = choose|k: int| 0 <= k < front.len() && front[k] == x;
                assert(ids[k] < ids[i]);
            }
        }
    } else {
        assert(front =~= ids);
        assert(dom =~= ids.to_set()) by {
            assert forall|x: u128| dom.contains(x) implies ids.to_set().contains(x) by {
                let k = choose|k: int| 0 <= k < ids.len() && #[trigger] ids[k] == x;
            }
        }
    }
}

impl DFA01 {
    /// The states with their ids, the ids in ascending order.
    pub fn states_with_id_iter(&self) -> (r: Vec<(u128, State01)>)
        ensures
            r@.len() == self@.states.len(),
            self@.states.dom().finite(),
            forall|i: int, j: int| 0 <= i < j < r@.len() ==> r@[i].0 < r@[j].0,
            forall|i: int|
                0 <= i < r@.len() ==> self@.states.contains_key((#[trigger] r@[i]).0)
                    && self@.states[r@[i].0] == r@[i].1@ && self@.rank(r@[i].0) == i,
            forall|id: u128|
                self@.states.contains_key(id) ==> (#[trigger] self@.rank(id)) < r@.len(),
            forall|id: u128|
                self@.states.contains_key(id) ==> (#[trigger] r@[self@.rank(id) as int]).0 == id,
    {
        let r: Vec<(u128, State01)> = sorted_entries(&self.states);
        proof {
            let ids = r@.map_values(|e: (u128, State01)| e.0);
            let dom = self@.states.dom();
            assert(dom =~= self.states@.dom());
            assert forall|k: int| 0 <= k < ids.len() implies dom.contains(#[trigger] ids[k]) by {
                assert(self.states@.contains_key(r@[k].0));
            }
            assert forall|id: u128| #[trigger] dom.contains(id) implies exists|k: int|
                0 <= k < ids.len() && #[trigger] ids[k] == id by {
                let k = choose|k: int| 0 <= k < r@.len() && (#[trigger] r@[k]).0 == id;
                assert(ids[k] == id);
            }
            lemma_rank_of_entry(dom, ids, ids.len() as int);
            assert forall|i: int| 0 <= i < r@.len() implies self@.states.contains_key(
                (#[trigger] r@[i]).0,
            ) && self@.states[r@[i].0] == r@[i].1@ && self@.rank(r@[i].0) == i by {
                lemma_rank_of_entry(dom, ids, i);
                assert(ids[i] == r@[i].0);
            }
            assert forall|id: u128| self@.states.contains_key(id) implies self@.rank(id) < r@.len()
                && r@[self@.rank(id) as int].0 == id by {
                let k = choose|k: int| 0 <= k < r@.len() && (#[trigger] r@[k]).0 == id;
                lemma_rank_of_entry(dom, ids, k);
                assert(ids[k] == id);
            }
        }
        r
    }

    /// The states, in the ascending order of their ids.
    pub fn states_iter(&self) -> (r: Vec<State01>)
        ensures
            r@.len() == self@.states.len(),
            forall|id: u128|
                self@.states.contains_key(id) ==> (#[trigger] self@.rank(id)) < r@.len()
                    && r@[self@.rank(id) as int]@ == self@.states[id],
    {
        let entries: Vec<(u128, State01)> = self.states_with_id_iter();
        let mut r: Vec<State01> = Vec::new();
        let mut i: usize = 0;
        while i < entries.len()
            invariant
                i <= entries.len(),
                r@.len() == i,
                forall|j: int| 0 <= j < i ==> r@[j] == (#[trigger] entries@[j]).1,
            decreases entries.len() - i,
        {
            r.push(entries[i].1);
            i += 1;
        }
        proof {
            assert forall|id: u128| self@.states.contains_key(id) implies (#[trigger] self@.rank(
                id,
            )) < r@.len() && r@[self@.rank(id) as int]@ == self@.states[id] by {
                let k = self@.rank(id) as int;
                assert(entries@[k].0 == id);
            }
        }
        r
    }

    /// The alphabet: its first and its last symbol.
    pub fn alphabet(&self) -> (r: &(u8, u8))
        ensures
            *r == self@.alphabet,
    {
        &self.alphabet
    }

    /// The start state, which must be set.
    pub fn start_state(&self) -> (r: u128)
        requires
            self@.start is Some,
        ensures
            Some(r) == self@.start,
    {
        self.start_state.unwrap()
    }

    /// The accept states.
    pub fn accept_states(&self) -> (r: &HashSet<u128>)
        ensures
            r@ == self@.accept,
    {
        &self.accept_states
    }

    /// The number of states.
    pub fn number_of_states(&self) -> (r: u128)
        ensures
            r == self@.states.len(),
            self@.states.dom().finite(),
    {
        assert(self@.states.dom() =~= self.states@.dom());
        self.states.len() as u128
    }

    /// Where state `from` leads on `input`. It fails for a state that the
    /// automaton does not have, and then for a symbol other than `0` and
    /// `1`.
    pub fn delta(&self, from: u128, input: u8) -> (r: Result<u128, DeltaError>)
        ensures
            r == (if !self@.states.contains_key(from) {
                Err::<u128, DeltaError>(DeltaError::UnknownState)
            } else if input != ZERO && input != ONE {
                Err(DeltaError::UnknownSymbol)
            } else {
                Ok(self@.next(from, input))
            }),
    {
        match self.states.get(&from) {
            None => Err(DeltaError::UnknownState),
            Some(state) => {
                if input == ZERO {
                    Ok(state.zero_to)
                } else if input == ONE {
                    Ok(state.one_to)
                } else {
                    Err(DeltaError::UnknownSymbol)
                }
            },
        }
    }
}

/// Whether `x` occurs in `v`.
pub fn contains_state(v: &Vec<u128>, x: u128) -> (r: bool)
    ensures
        r == v@.contains(x),
{
    let mut i: usize = 0;
    while i < v.len()
        invariant
            i <= v.len(),
            forall|j: int| 0 <= j < i ==> v@[j] != x,
        decreases v.len() - i,
    {
        if v[i] == x {
            return true;
        }
        i += 1;
    }
    false
}

impl NfaModel {
    /// The subset construction can read the automaton: it is well formed,
    /// its start state is a state and its first accept state fits the bits
    /// of a state id.
    pub open spec fn ready_for_subsets(self) -> bool {
        &&& self.wf()
        &&& self.start matches Some(s0) && s0 < self.states.len()
        &&& self.accept.len() > 0
        &&& self.accept[0] < 128
    }

    /// The automaton of the subset construction leads to its own states
    /// only, and its start and accept states are states.
    pub proof fn lemma_subset_dfa_closed(self)
        requires
            self.start is Some,
            self.start->Some_0 < 128,
        ensures
            self.subset_dfa().closed(),
    {
        let m = self.subset_dfa();
        let edge = self.subset_edge();
        let start = self.subset_start();
        crate::graph::lemma_reaches_self(edge, start as int);
        assert forall|id: u128| m.states.contains_key(id) implies m.states.contains_key(
            (#[trigger] m.states[id]).0,
        ) && m.states.contains_key(m.states[id].1) by {
            let z = self.subset_step(id, ZERO);
            let o = self.subset_step(id, ONE);
            assert(edge(id as int, z as int));
            assert(edge(id as int, o as int));
            crate::graph::lemma_reaches_step(edge, start as int, id as int, z as int);
            crate::graph::lemma_reaches_step(edge, start as int, id as int, o as int);
        }
    }
}

impl NFA {
    /// Whether the subset construction can read the automaton.
    pub fn is_ready_for_subsets(&self) -> (r: bool)
        ensures
            r == self@.ready_for_subsets(),
    {
        if !self.is_well_formed() {
            return false;
        }
        let n: usize = self.get_states_iter().len();
        match self.start() {
            None => false,
            Some(s0) => (s0 as usize) < n && self.accepts().len() > 0 && self.accepts()[0] < 128,
        }
    }
}

impl DFA01 {
    /// The subset construction for any automaton: it fails on more than 128
    /// states, then on an alphabet other than `{0, 1}`, then on an automaton
    /// that the subset construction cannot read, and else gives what
    /// [`DFA01::build_dfa_from_nfa`] gives.
    pub fn try_build_dfa_from_nfa(nfa: &NFA) -> (r: Result<DFA01, DfaError>)
        ensures
            match r {
                Ok(dfa) => nfa@.states.len() <= 128 && nfa@.alphabet == set![ZERO, ONE]
                    && nfa@.ready_for_subsets() && dfa@ == nfa@.subset_dfa() && dfa@.closed(),
                Err(DfaError::TooManyStates) => nfa@.states.len() > 128,
                Err(DfaError::UnsupportedAlphabet) => nfa@.states.len() <= 128 && nfa@.alphabet
                    != set![ZERO, ONE],
                Err(DfaError::MalformedAutomaton) => nfa@.states.len() <= 128 && nfa@.alphabet
                    == set![ZERO, ONE] && !nfa@.ready_for_subsets(),
            },
    {
        let n: usize = nfa.get_states_iter().len();
        if n > MAX_STATES {
            return Err(DfaError::TooManyStates);
        }
        let alphabet: &HashSet<u8> = nfa.alphabet();
        let binary: bool = alphabet.len() == 2 && alphabet.contains(&ZERO) && alphabet.contains(
            &ONE,
        );
        proof {
            let both = set![ZERO, ONE];
            assert(both.len() == 2) by {
                assert(both =~= Set::<u8>::empty().insert(ZERO).insert(ONE));
            }
            lemma_symbols_finite(alphabet);
            if binary {
                assert(alphabet@.len() == 2);
                assert(both.subset_of(alphabet@));
                vstd::set_lib::lemma_subset_equality(both, alphabet@);
            }
            if alphabet@ == both {
                assert(alphabet@.contains(ZERO) && alphabet@.contains(ONE));
            }
        }
        if !binary {
            return Err(DfaError::UnsupportedAlphabet);
        }
        if !nfa.is_ready_for_subsets() {
            return Err(DfaError::MalformedAutomaton);
        }
        proof {
            nfa@.lemma_subset_dfa_closed();
        }
        DFA01::build_dfa_from_nfa(nfa)
    }
}

} // verus!
