//! Thompson's construction, driven top-down by a stack of holes: each hole
//! names the two states between which the next sub-automaton is spliced.
use crate::ast::Ast;
use crate::graph::{contains_id, lemma_push_contains, lemma_reaches_step};
use crate::nfa::{NfaModel, State, StateModel, NFA};
use std::collections::HashSet;
use vstd::prelude::*;

verus! {

/// Why no automaton could be built.
#[derive(Debug, Clone, Copy, PartialEq, Eq, Structural)]
pub enum BuildError {
    /// The tree holds a lookaround assertion.
    UnsupportedConstruct,
    /// A node was visited while no hole was waiting for it.
    MalformedTree,
    /// The automaton would need more states than a state id can number.
    TooManyStates,
}

/// A place that waits for a sub-automaton: the sub-automaton is entered from
/// `come_from` and left towards `go_to`.
#[derive(Debug, Clone, Copy)]
pub enum Hole {
    Alternation { come_from: u32, go_to: u32 },
    Concatenation { come_from: u32, go_to: u32 },
    Repetition { come_from: u32, go_to: u32 },
}

impl Hole {
    /// The state from which the sub-automaton is entered.
    pub open spec fn come_from(self) -> u32 {
        match self {
            Hole::Alternation { come_from, .. } => come_from,
            Hole::Concatenation { come_from, .. } => come_from,
            Hole::Repetition { come_from, .. } => come_from,
        }
    }

    /// The state towards which the sub-automaton is left.
    pub open spec fn go_to(self) -> u32 {
        match self {
            Hole::Alternation { go_to, .. } => go_to,
            Hole::Concatenation { go_to, .. } => go_to,
            Hole::Repetition { go_to, .. } => go_to,
        }
    }
}

/// A chain of symbol moves that spells `bytes` from `current` to `end`; every
/// byte but the last leads to a fresh state.
pub open spec fn literal_chain(nfa: NfaModel, current: u32, bytes: Seq<u8>, end: u32) -> NfaModel
    decreases bytes.len(),
{
    if bytes.len() == 0 {
        nfa
    } else if bytes.len() == 1 {
        nfa.add_transition(current, bytes[0], end)
    } else {
        let next = nfa.states.len() as u32;
        literal_chain(
            nfa.add_state(StateModel::NonEpsilon(Seq::empty())).add_transition(
                current,
                bytes[0],
                next,
            ),
            next,
            bytes.drop_first(),
            end,
        )
    }
}

/// One move `start --c--> end` for every byte `c` with `lo <= c <= hi`, in
/// ascending order.
pub open spec fn range_moves(nfa: NfaModel, start: u32, lo: int, hi: int, end: u32) -> NfaModel
    decreases hi - lo + 1,
{
    if lo > hi {
        nfa
    } else {
        range_moves(nfa.add_transition(start, lo as u8, end), start, lo + 1, hi, end)
    }
}

/// The moves of every range of a class, range after range.
pub open spec fn class_moves(nfa: NfaModel, start: u32, ranges: Seq<(u8, u8)>, end: u32) -> NfaModel
    decreases ranges.len(),
{
    if ranges.len() == 0 {
        nfa
    } else {
        class_moves(
            range_moves(nfa, start, ranges[0].0 as int, ranges[0].1 as int, end),
            start,
            ranges.drop_first(),
            end,
        )
    }
}

/// Two automata have the same number of states, and of the same kinds.
pub open spec fn same_kinds(a: NfaModel, b: NfaModel) -> bool {
    &&& a.states.len() == b.states.len()
    &&& forall|id: u32| #[trigger] a.is_epsilon(id) == b.is_epsilon(id)
    &&& forall|id: u32| #[trigger] a.is_non_epsilon(id) == b.is_non_epsilon(id)
}

/// `b` has the states of `a`, of the same kinds, and maybe more.
pub open spec fn extends_kinds(a: NfaModel, b: NfaModel) -> bool {
    &&& a.states.len() <= b.states.len()
    &&& forall|id: u32| #[trigger] a.is_epsilon(id) ==> b.is_epsilon(id)
    &&& forall|id: u32| #[trigger] a.is_non_epsilon(id) ==> b.is_non_epsilon(id)
}

/// A symbol move more changes no state's kind.
pub proof fn lemma_add_transition_kinds(nfa: NfaModel, from: u32, input: u8, to: u32)
    requires
        nfa.is_non_epsilon(from),
    ensures
        same_kinds(nfa, nfa.add_transition(from, input, to)),
{
    let b = nfa.add_transition(from, input, to);
    assert forall|id: u32| #[trigger] nfa.is_epsilon(id) == b.is_epsilon(id) by {}
    assert forall|id: u32| #[trigger] nfa.is_non_epsilon(id) == b.is_non_epsilon(id) by {}
}

/// An epsilon move more changes no state's kind.
pub proof fn lemma_add_epsilon_transition_kinds(nfa: NfaModel, from: u32, to: u32)
    requires
        nfa.is_epsilon(from),
    ensures
        same_kinds(nfa, nfa.add_epsilon_transition(from, to)),
{
    let b = nfa.add_epsilon_transition(from, to);
    assert forall|id: u32| #[trigger] nfa.is_epsilon(id) == b.is_epsilon(id) by {}
    assert forall|id: u32| #[trigger] nfa.is_non_epsilon(id) == b.is_non_epsilon(id) by {}
}

/// A state more keeps the states that were there, of their kinds.
pub proof fn lemma_add_state_kinds(nfa: NfaModel, s: StateModel)
    requires
        nfa.states.len() < u32::MAX,
    ensures
        extends_kinds(nfa, nfa.add_state(s)),
        nfa.add_state(s).states.len() == nfa.states.len() + 1,
        s is Epsilon ==> nfa.add_state(s).is_epsilon(nfa.states.len() as u32),
        s is NonEpsilon ==> nfa.add_state(s).is_non_epsilon(nfa.states.len() as u32),
{
}

/// The chain of a literal keeps the states that were there, of their kinds, and adds one
/// state for every byte but the last.
pub proof fn lemma_literal_chain_kinds(nfa: NfaModel, current: u32, bytes: Seq<u8>, end: u32)
    requires
        nfa.is_non_epsilon(current),
        nfa.states.len() + bytes.len() <= u32::MAX + 1,
    ensures
        extends_kinds(nfa, literal_chain(nfa, current, bytes, end)),
        literal_chain(nfa, current, bytes, end).states.len() == nfa.states.len() + (if bytes.len()
            == 0 {
            0
        } else {
            bytes.len() - 1
        }),
    decreases bytes.len(),
{
    if bytes.len() == 0 {
    } else if bytes.len() == 1 {
        lemma_add_transition_kinds(nfa, current, bytes[0], end);
    } else {
        let next = nfa.states.len() as u32;
        let n1 = nfa.add_state(StateModel::NonEpsilon(Seq::empty()));
        lemma_add_state_kinds(nfa, StateModel::NonEpsilon(Seq::empty()));
        let n2 = n1.add_transition(current, bytes[0], next);
        lemma_add_transition_kinds(n1, current, bytes[0], next);
        lemma_literal_chain_kinds(n2, next, bytes.drop_first(), end);
        let r = literal_chain(nfa, current, bytes, end);
        assert forall|id: u32| #[trigger] nfa.is_epsilon(id) implies r.is_epsilon(id) by {
            assert(n1.is_epsilon(id));
            assert(n2.is_epsilon(id));
        }
        assert forall|id: u32| #[trigger] nfa.is_non_epsilon(id) implies r.is_non_epsilon(id) by {
            assert(n1.is_non_epsilon(id));
            assert(n2.is_non_epsilon(id));
        }
    }
}

/// The moves of a range change no state's kind.
pub proof fn lemma_range_moves_kinds(nfa: NfaModel, start: u32, lo: int, hi: int, end: u32)
    requires
        nfa.is_non_epsilon(start),
    ensures
        same_kinds(nfa, range_moves(nfa, start, lo, hi, end)),
    decreases hi - lo + 1,
{
    if lo <= hi {
        let n1 = nfa.add_transition(start, lo as u8, end);
        lemma_add_transition_kinds(nfa, start, lo as u8, end);
        lemma_range_moves_kinds(n1, start, lo + 1, hi, end);
        let r = range_moves(nfa, start, lo, hi, end);
        assert forall|id: u32| #[trigger] nfa.is_epsilon(id) == r.is_epsilon(id) by {
            assert(n1.is_epsilon(id) == nfa.is_epsilon(id));
        }
        assert forall|id: u32| #[trigger] nfa.is_non_epsilon(id) == r.is_non_epsilon(id) by {
            assert(n1.is_non_epsilon(id) == nfa.is_non_epsilon(id));
        }
    }
}

/// The moves of a class change no state's kind.
pub proof fn lemma_class_moves_kinds(nfa: NfaModel, start: u32, ranges: Seq<(u8, u8)>, end: u32)
    requires
        nfa.is_non_epsilon(start),
    ensures
        same_kinds(nfa, class_moves(nfa, start, ranges, end)),
    decreases ranges.len(),
{
    if ranges.len() > 0 {
        let n1 = range_moves(nfa, start, ranges[0].0 as int, ranges[0].1 as int, end);
        lemma_range_moves_kinds(nfa, start, ranges[0].0 as int, ranges[0].1 as int, end);
        lemma_class_moves_kinds(n1, start, ranges.drop_first(), end);
        let r = class_moves(nfa, start, ranges, end);
        assert forall|id: u32| #[trigger] nfa.is_epsilon(id) == r.is_epsilon(id) by {
            assert(n1.is_epsilon(id) == nfa.is_epsilon(id));
        }
        assert forall|id: u32| #[trigger] nfa.is_non_epsilon(id) == r.is_non_epsilon(id) by {
            assert(n1.is_non_epsilon(id) == nfa.is_non_epsilon(id));
        }
    }
}

/// Mathematical value of a [`Builder`].
pub struct BuilderModel {
    pub nfa: NfaModel,
    pub stack: Seq<Hole>,
}

impl BuilderModel {
    /// Every hole is entered from an existing state for epsilon moves.
    pub open spec fn wf(self) -> bool {
        forall|i: int|
            0 <= i < self.stack.len() ==> self.nfa.is_epsilon((#[trigger] self.stack[i]).come_from())
    }

    /// Number of states that visiting `node` allocates before its children
    /// are visited.
    pub open spec fn fresh_states(node: Ast) -> nat {
        match node {
            Ast::Literal(bytes) => if bytes@.len() == 0 {
                2
            } else {
                1 + bytes@.len()
            },
            _ => 2,
        }
    }

    /// The holes after the topmost one was taken for a node whose exit is
    /// `end`: a concatenation hole stays, now entered from `end`.
    pub open spec fn stack_after_take(self, end: u32) -> Seq<Hole> {
        match self.stack.last() {
            Hole::Concatenation { come_from, go_to } => self.stack.drop_last().push(
                Hole::Concatenation { come_from: end, go_to },
            ),
            _ => self.stack.drop_last(),
        }
    }

    /// The entry state and the holes for the children of `node`, whose exit
    /// `end` is the newest state of `self.nfa`.
    pub open spec fn open_node(self, node: Ast, end: u32) -> BuilderModel {
        let start = self.nfa.states.len() as u32;
        let eps = self.nfa.add_state(StateModel::Epsilon(Seq::empty()));
        let non_eps = self.nfa.add_state(StateModel::NonEpsilon(Seq::empty()));
        match node {
            Ast::Concat(_) => BuilderModel {
                nfa: eps,
                stack: self.stack.push(Hole::Concatenation { come_from: start, go_to: end }),
            },
            Ast::Alternation(subs) => BuilderModel {
                nfa: eps,
                stack: self.stack + Seq::new(
                    subs@.len(),
                    |i: int| Hole::Alternation { come_from: start, go_to: end },
                ),
            },
            Ast::Literal(bytes) => BuilderModel {
                nfa: literal_chain(non_eps, start, bytes@, end),
                stack: self.stack,
            },
            Ast::Class(ranges) => BuilderModel {
                nfa: class_moves(non_eps, start, ranges@, end),
                stack: self.stack,
            },
            Ast::Repetition(_) => BuilderModel {
                nfa: eps.add_epsilon_transition(start, end),
                stack: self.stack.push(Hole::Repetition { come_from: start, go_to: end }),
            },
            Ast::Capture(_) => BuilderModel {
                nfa: eps,
                stack: self.stack.push(Hole::Alternation { come_from: start, go_to: end }),
            },
            _ => BuilderModel { nfa: eps.add_epsilon_transition(start, end), stack: self.stack },
        }
    }

    /// The moves that splice a sub-automaton with entry `start` and exit
    /// `end` into `hole`.
    pub open spec fn splice(nfa: NfaModel, hole: Hole, start: u32, end: u32) -> NfaModel {
        let entered = nfa.add_epsilon_transition(hole.come_from(), start);
        match hole {
            Hole::Repetition { come_from, go_to } => entered.add_epsilon_transition(
                end,
                go_to,
            ).add_epsilon_transition(end, start),
            Hole::Alternation { come_from, go_to } => entered.add_epsilon_transition(end, go_to),
            Hole::Concatenation { .. } => entered,
        }
    }

    /// What entering `node` does: a fresh exit state, the topmost hole taken,
    /// a fresh entry state with what the node's kind asks for, and the splice
    /// into the hole.
    pub open spec fn visit_pre(self, node: Ast) -> Result<BuilderModel, BuildError> {
        if self.nfa.states.len() + Self::fresh_states(node) > u32::MAX {
            Err(BuildError::TooManyStates)
        } else if self.stack.len() == 0 {
            Err(BuildError::MalformedTree)
        } else if node is Look {
            Err(BuildError::UnsupportedConstruct)
        } else {
            let end = self.nfa.states.len() as u32;
            let start = (end + 1) as u32;
            let hole = self.stack.last();
            let taken = BuilderModel {
                nfa: self.nfa.add_state(StateModel::Epsilon(Seq::empty())),
                stack: self.stack_after_take(end),
            };
            let opened = taken.open_node(node, end);
            Ok(BuilderModel { nfa: Self::splice(opened.nfa, hole, start, end), stack: opened.stack })
        }
    }

    /// The topmost hole removed; a concatenation hole is closed by an epsilon
    /// move from where it is entered to where it leads.
    pub open spec fn close_hole(self) -> BuilderModel {
        if self.stack.len() == 0 {
            self
        } else {
            match self.stack.last() {
                Hole::Concatenation { come_from, go_to } => BuilderModel {
                    nfa: self.nfa.add_epsilon_transition(come_from, go_to),
                    stack: self.stack.drop_last(),
                },
                _ => BuilderModel { nfa: self.nfa, stack: self.stack.drop_last() },
            }
        }
    }

    /// What leaving `node` does: a concatenation closes its hole, any other
    /// node does nothing.
    pub open spec fn visit_post(self, node: Ast) -> BuilderModel {
        if node is Concat {
            self.close_hole()
        } else {
            self
        }
    }

    /// The automaton once the walk is over.
    pub open spec fn finish(self) -> NfaModel {
        self.close_hole().nfa
    }
}

/// Holes that were entered from states for epsilon moves still are, when the automaton
/// keeps its states and their kinds.
pub proof fn lemma_same_kinds_wf(a: BuilderModel, nfa: NfaModel)
    requires
        a.wf(),
        extends_kinds(a.nfa, nfa),
    ensures
        (BuilderModel { nfa, stack: a.stack }).wf(),
{
    let b = BuilderModel { nfa, stack: a.stack };
    assert forall|i: int| 0 <= i < b.stack.len() implies b.nfa.is_epsilon(
        (#[trigger] b.stack[i]).come_from(),
    ) by {
        assert(a.nfa.is_epsilon(a.stack[i].come_from()));
    }
}

/// A visit keeps the builder well formed and never removes a state.
pub proof fn lemma_visit_pre_wf(b: BuilderModel, node: Ast)
    requires
        b.wf(),
        b.visit_pre(node) is Ok,
    ensures
        b.visit_pre(node)->Ok_0.wf(),
        extends_kinds(b.nfa, b.visit_pre(node)->Ok_0.nfa),
{
    let end = b.nfa.states.len() as u32;
    let start = (end + 1) as u32;
    let hole = b.stack.last();
    let n1 = b.nfa.add_state(StateModel::Epsilon(Seq::empty()));
    lemma_add_state_kinds(b.nfa, StateModel::Epsilon(Seq::empty()));
    let taken = BuilderModel { nfa: n1, stack: b.stack_after_take(end) };
    assert(b.nfa.is_epsilon(b.stack[b.stack.len() - 1].come_from()));
    assert(taken.wf()) by {
        assert forall|i: int| 0 <= i < taken.stack.len() implies taken.nfa.is_epsilon(
            (#[trigger] taken.stack[i]).come_from(),
        ) by {
            if i < b.stack.len() - 1 {
                assert(b.nfa.is_epsilon(b.stack[i].come_from()));
            }
        }
    }
    let opened = taken.open_node(node, end);
    let eps = n1.add_state(StateModel::Epsilon(Seq::empty()));
    let non_eps = n1.add_state(StateModel::NonEpsilon(Seq::empty()));
    lemma_add_state_kinds(n1, StateModel::Epsilon(Seq::empty()));
    lemma_add_state_kinds(n1, StateModel::NonEpsilon(Seq::empty()));
    assert(extends_kinds(n1, opened.nfa) && opened.nfa.is_epsilon(end) && opened.nfa.states.len()
        > start) by {
        match node {
            Ast::Literal(bytes) => {
                lemma_literal_chain_kinds(non_eps, start, bytes@, end);
                assert(n1.is_epsilon(end));
                assert(non_eps.is_epsilon(end));
            },
            Ast::Class(ranges) => {
                lemma_class_moves_kinds(non_eps, start, ranges@, end);
                assert(n1.is_epsilon(end));
                assert(non_eps.is_epsilon(end));
            },
            Ast::Repetition(_) => {
                lemma_add_epsilon_transition_kinds(eps, start, end);
                assert(n1.is_epsilon(end));
                assert(eps.is_epsilon(end));
            },
            Ast::Concat(_) => {
                assert(n1.is_epsilon(end));
            },
            Ast::Alternation(_) => {
                assert(n1.is_epsilon(end));
            },
            Ast::Capture(_) => {
                assert(n1.is_epsilon(end));
            },
            _ => {
                lemma_add_epsilon_transition_kinds(eps, start, end);
                assert(n1.is_epsilon(end));
                assert(eps.is_epsilon(end));
            },
        }
    }
    assert(opened.wf()) by {
        assert forall|i: int| 0 <= i < opened.stack.len() implies opened.nfa.is_epsilon(
            (#[trigger] opened.stack[i]).come_from(),
        ) by {
            if i < taken.stack.len() {
                assert(opened.stack[i] == taken.stack[i]);
                assert(taken.nfa.is_epsilon(taken.stack[i].come_from()));
            } else {
                assert(opened.stack[i].come_from() == start);
                match node {
                    Ast::Repetition(_) => {
                        lemma_add_epsilon_transition_kinds(eps, start, end);
                        assert(eps.is_epsilon(start));
                    },
                    _ => {},
                }
            }
        }
    }
    assert(n1.is_epsilon(hole.come_from()));
    assert(opened.nfa.is_epsilon(hole.come_from()));
    let entered = opened.nfa.add_epsilon_transition(hole.come_from(), start);
    lemma_add_epsilon_transition_kinds(opened.nfa, hole.come_from(), start);
    assert(entered.is_epsilon(end) == opened.nfa.is_epsilon(end));
    let spliced = BuilderModel::splice(opened.nfa, hole, start, end);
    assert(same_kinds(opened.nfa, spliced)) by {
        match hole {
            Hole::Repetition { come_from, go_to } => {
                let e2 = entered.add_epsilon_transition(end, go_to);
                lemma_add_epsilon_transition_kinds(entered, end, go_to);
                assert(e2.is_epsilon(end) == entered.is_epsilon(end));
                lemma_add_epsilon_transition_kinds(e2, end, start);
                assert forall|id: u32| #[trigger] opened.nfa.is_epsilon(id) == spliced.is_epsilon(
                    id,
                ) by {
                    assert(entered.is_epsilon(id) == opened.nfa.is_epsilon(id));
                    assert(e2.is_epsilon(id) == entered.is_epsilon(id));
                }
                assert forall|id: u32| #[trigger]
                    opened.nfa.is_non_epsilon(id) == spliced.is_non_epsilon(id) by {
                    assert(entered.is_non_epsilon(id) == opened.nfa.is_non_epsilon(id));
                    assert(e2.is_non_epsilon(id) == entered.is_non_epsilon(id));
                }
            },
            Hole::Alternation { come_from, go_to } => {
                lemma_add_epsilon_transition_kinds(entered, end, go_to);
                assert forall|id: u32| #[trigger] opened.nfa.is_epsilon(id) == spliced.is_epsilon(
                    id,
                ) by {
                    assert(entered.is_epsilon(id) == opened.nfa.is_epsilon(id));
                }
                assert forall|id: u32| #[trigger]
                    opened.nfa.is_non_epsilon(id) == spliced.is_non_epsilon(id) by {
                    assert(entered.is_non_epsilon(id) == opened.nfa.is_non_epsilon(id));
                }
            },
            Hole::Concatenation { .. } => {},
        }
    }
    let r = b.visit_pre(node)->Ok_0;
    assert(r.nfa == spliced && r.stack == opened.stack);
    assert(extends_kinds(opened.nfa, spliced)) by {
        assert forall|id: u32| #[trigger] opened.nfa.is_epsilon(id) implies spliced.is_epsilon(
            id,
        ) by {}
        assert forall|id: u32| #[trigger] opened.nfa.is_non_epsilon(id) implies spliced.is_non_epsilon(
            id,
        ) by {}
    }
    lemma_same_kinds_wf(opened, spliced);
    assert forall|id: u32| #[trigger] b.nfa.is_epsilon(id) implies r.nfa.is_epsilon(id) by {
        assert(n1.is_epsilon(id));
        assert(opened.nfa.is_epsilon(id));
    }
    assert forall|id: u32| #[trigger] b.nfa.is_non_epsilon(id) implies r.nfa.is_non_epsilon(id) by {
        assert(n1.is_non_epsilon(id));
        assert(opened.nfa.is_non_epsilon(id));
    }
}

/// Closing a hole keeps the builder well formed and changes no state's kind.
pub proof fn lemma_close_hole_wf(b: BuilderModel)
    requires
        b.wf(),
    ensures
        b.close_hole().wf(),
        same_kinds(b.nfa, b.close_hole().nfa),
{
    let r = b.close_hole();
    if b.stack.len() > 0 {
        assert(b.nfa.is_epsilon(b.stack[b.stack.len() - 1].come_from()));
        match b.stack.last() {
            Hole::Concatenation { come_from, go_to } => {
                lemma_add_epsilon_transition_kinds(b.nfa, come_from, go_to);
            },
            _ => {},
        }
        assert forall|i: int| 0 <= i < r.stack.len() implies r.nfa.is_epsilon(
            (#[trigger] r.stack[i]).come_from(),
        ) by {
            assert(b.nfa.is_epsilon(b.stack[i].come_from()));
        }
    }
}

/// Builds automata; it holds the automaton under construction and the holes
/// that still wait for a sub-automaton.
pub struct Builder {
    nfa: NFA,
    stack: Vec<Hole>,
}

impl View for Builder {
    type V = BuilderModel;

    closed spec fn view(&self) -> BuilderModel {
        BuilderModel { nfa: self.nfa@, stack: self.stack@ }
    }
}

impl Builder {
    /// A builder with an automaton without states and without holes.
    pub fn new() -> (b: Builder)
        ensures
            b@ == (BuilderModel { nfa: NfaModel::empty(), stack: Seq::empty() }),
            b@.wf(),
    {
        Builder { nfa: NFA::init_empty(), stack: Vec::new() }
    }

    /// The chain of states and moves that spells a literal.
    fn add_literal(&mut self, start: u32, bytes: &Vec<u8>, end: u32)
        requires
            old(self)@.nfa.is_non_epsilon(start),
            old(self)@.nfa.states.len() + bytes@.len() <= u32::MAX + 1,
        ensures
            final(self)@.stack == old(self)@.stack,
            final(self)@.nfa == literal_chain(old(self)@.nfa, start, bytes@, end),
    {
        let mut current: u32 = start;
        let mut i: usize = 0;
        let len: usize = bytes.len();
        assert(bytes@.subrange(0, len as int) =~= bytes@);
        while i < len
            invariant
                i <= len,
                len == bytes@.len(),
                self@.stack == old(self)@.stack,
                self@.nfa.is_non_epsilon(current),
                self@.nfa.states.len() + (len - i) <= u32::MAX + 1,
                literal_chain(self@.nfa, current, bytes@.subrange(i as int, len as int), end)
                    == literal_chain(old(self)@.nfa, start, bytes@, end),
            decreases len - i,
        {
            let c: u8 = bytes[i];
            let ghost before = self@.nfa;
            let ghost rest = bytes@.subrange(i as int, len as int);
            assert(rest[0] == c);
            assert(rest.drop_first() =~= bytes@.subrange(i + 1, len as int));
            if i + 1 < len {
                let next: u32 = self.nfa.add_non_epsilon_state();
                proof {
                    lemma_add_state_kinds(before, StateModel::NonEpsilon(Seq::empty()));
                }
                self.nfa.add_transition(current, c, next);
                proof {
                    lemma_add_transition_kinds(
                        before.add_state(StateModel::NonEpsilon(Seq::empty())),
                        current,
                        c,
                        next,
                    );
                }
                current = next;
            } else {
                self.nfa.add_transition(current, c, end);
                proof {
                    lemma_add_transition_kinds(before, current, c, end);
                }
            }
            i += 1;
        }
        assert(bytes@.subrange(len as int, len as int).len() == 0);
    }

    /// The moves of one inclusive byte range.
    fn add_range(&mut self, start: u32, lo: u8, hi: u8, end: u32)
        requires
            old(self)@.nfa.is_non_epsilon(start),
        ensures
            final(self)@.stack == old(self)@.stack,
            final(self)@.nfa == range_moves(old(self)@.nfa, start, lo as int, hi as int, end),
    {
        let mut c: u16 = lo as u16;
        while c <= hi as u16
            invariant
                lo <= c <= hi + 1 || (lo > hi && c == lo),
                self@.stack == old(self)@.stack,
                self@.nfa.is_non_epsilon(start),
                range_moves(self@.nfa, start, c as int, hi as int, end) == range_moves(
                    old(self)@.nfa,
                    start,
                    lo as int,
                    hi as int,
                    end,
                ),
            decreases hi + 1 - c,
        {
            proof {
                lemma_add_transition_kinds(self@.nfa, start, c as u8, end);
            }
            self.nfa.add_transition(start, c as u8, end);
            c += 1;
        }
    }

    /// The moves of every range of a class.
    fn add_class(&mut self, start: u32, ranges: &Vec<(u8, u8)>, end: u32)
        requires
            old(self)@.nfa.is_non_epsilon(start),
        ensures
            final(self)@.stack == old(self)@.stack,
            final(self)@.nfa == class_moves(old(self)@.nfa, start, ranges@, end),
    {
        let mut i: usize = 0;
        let len: usize = ranges.len();
        assert(ranges@.subrange(0, len as int) =~= ranges@);
        while i < len
            invariant
                i <= len,
                len == ranges@.len(),
                self@.stack == old(self)@.stack,
                self@.nfa.is_non_epsilon(start),
                class_moves(self@.nfa, start, ranges@.subrange(i as int, len as int), end)
                    == class_moves(old(self)@.nfa, start, ranges@, end),
            decreases len - i,
        {
            let range: (u8, u8) = ranges[i];
            let ghost rest = ranges@.subrange(i as int, len as int);
            assert(rest[0] == range);
            assert(rest.drop_first() =~= ranges@.subrange(i + 1, len as int));
            proof {
                lemma_range_moves_kinds(self@.nfa, start, range.0 as int, range.1 as int, end);
            }
            self.add_range(start, range.0, range.1, end);
            i += 1;
        }
        assert(ranges@.subrange(len as int, len as int).len() == 0);
    }

    /// Enters `node`: see [`BuilderModel::visit_pre`]. On an error the
    /// builder is left as it was.
    pub fn visit_pre(&mut self, node: &Ast) -> (r: Result<(), BuildError>)
        requires
            old(self)@.wf(),
        ensures
            match old(self)@.visit_pre(*node) {
                Ok(b) => r is Ok && final(self)@ == b,
                Err(e) => r == Err::<(), BuildError>(e) && final(self)@ == old(self)@,
            },
            final(self)@.wf(),
    {
        let count: usize = self.nfa.get_states_iter().len();
        let fresh: u128 = match node {
            Ast::Literal(bytes) => if bytes.len() == 0 {
                2
            } else {
                1 + bytes.len() as u128
            },
            _ => 2,
        };
        if count as u128 + fresh > u32::MAX as u128 {
            return Err(BuildError::TooManyStates);
        }
        if self.stack.len() == 0 {
            return Err(BuildError::MalformedTree);
        }
        if let Ast::Look = node {
            return Err(BuildError::UnsupportedConstruct);
        }
        proof {
            lemma_visit_pre_wf(old(self)@, *node);
        }
        let ghost b0 = self@;
        assert(b0.nfa.is_epsilon(b0.stack[b0.stack.len() - 1].come_from()));

        let end: u32 = self.nfa.add_epsilon_state();
        let hole: Hole = self.stack.pop().unwrap();
        if let Hole::Concatenation { come_from, go_to } = hole {
            self.stack.push(Hole::Concatenation { come_from: end, go_to });
        }
        let ghost taken = self@;
        assert(taken.stack =~= b0.stack_after_take(end));
        proof {
            lemma_add_state_kinds(b0.nfa, StateModel::Epsilon(Seq::empty()));
            lemma_add_state_kinds(taken.nfa, StateModel::Epsilon(Seq::empty()));
            lemma_add_state_kinds(taken.nfa, StateModel::NonEpsilon(Seq::empty()));
        }

        let start: u32 = match node {
            Ast::Concat(_) => {
                let start: u32 = self.nfa.add_epsilon_state();
                self.stack.push(Hole::Concatenation { come_from: start, go_to: end });
                start
            },
            Ast::Alternation(subs) => {
                let start: u32 = self.nfa.add_epsilon_state();
                let mut k: usize = 0;
                while k < subs.len()
                    invariant
                        k <= subs.len(),
                        self@.nfa == taken.nfa.add_state(StateModel::Epsilon(Seq::empty())),
                        self@.stack == taken.stack + Seq::new(
                            k as nat,
                            |i: int| Hole::Alternation { come_from: start, go_to: end },
                        ),
                    decreases subs.len() - k,
                {
                    self.stack.push(Hole::Alternation { come_from: start, go_to: end });
                    k += 1;
                    assert(self@.stack =~= taken.stack + Seq::new(
                        k as nat,
                        |i: int| Hole::Alternation { come_from: start, go_to: end },
                    ));
                }
                start
            },
            Ast::Literal(bytes) => {
                let start: u32 = self.nfa.add_non_epsilon_state();
                self.add_literal(start, bytes, end);
                start
            },
            Ast::Class(ranges) => {
                let start: u32 = self.nfa.add_non_epsilon_state();
                self.add_class(start, ranges, end);
                start
            },
            Ast::Repetition(_) => {
                let start: u32 = self.nfa.add_epsilon_state();
                self.nfa.add_epsilon_transition(start, end);
                self.stack.push(Hole::Repetition { come_from: start, go_to: end });
                start
            },
            Ast::Capture(_) => {
                let start: u32 = self.nfa.add_epsilon_state();
                self.stack.push(Hole::Alternation { come_from: start, go_to: end });
                start
            },
            _ => {
                let start: u32 = self.nfa.add_epsilon_state();
                self.nfa.add_epsilon_transition(start, end);
                start
            },
        };
        let ghost opened = self@;
        assert(opened.stack =~= taken.open_node(*node, end).stack);
        assert(opened == taken.open_node(*node, end));
        assert(opened.nfa.is_epsilon(end) && opened.nfa.is_epsilon(hole.come_from())) by {
            lemma_open_node_kinds(taken, *node, end);
            assert(taken.nfa.is_epsilon(end));
            assert(b0.nfa.is_epsilon(hole.come_from()));
            assert(taken.nfa.is_epsilon(hole.come_from()));
        }

        let come_from: u32 = match hole {
            Hole::Alternation { come_from, .. } => come_from,
            Hole::Concatenation { come_from, .. } => come_from,
            Hole::Repetition { come_from, .. } => come_from,
        };
        self.nfa.add_epsilon_transition(come_from, start);
        proof {
            lemma_add_epsilon_transition_kinds(opened.nfa, come_from, start);
            assert(self@.nfa.is_epsilon(end) == opened.nfa.is_epsilon(end));
        }
        match hole {
            Hole::Repetition { come_from: _, go_to } => {
                let ghost entered = self@.nfa;
                self.nfa.add_epsilon_transition(end, go_to);
                proof {
                    lemma_add_epsilon_transition_kinds(entered, end, go_to);
                    assert(self@.nfa.is_epsilon(end) == entered.is_epsilon(end));
                }
                self.nfa.add_epsilon_transition(end, start);
            },
            Hole::Alternation { come_from: _, go_to } => {
                self.nfa.add_epsilon_transition(end, go_to);
            },
            Hole::Concatenation { .. } => {},
        }
        Ok(())
    }

    /// Leaves `node`: see [`BuilderModel::visit_post`].
    pub fn visit_post(&mut self, node: &Ast) -> (r: Result<(), BuildError>)
        requires
            old(self)@.wf(),
        ensures
            r is Ok,
            final(self)@ == old(self)@.visit_post(*node),
            final(self)@.wf(),
    {
        proof {
            lemma_close_hole_wf(old(self)@);
        }
        if let Ast::Concat(_) = node {
            self.close_hole();
        }
        Ok(())
    }

    /// Removes the topmost hole, if there is one, and closes it if it is a
    /// concatenation hole.
    fn close_hole(&mut self)
        requires
            old(self)@.wf(),
        ensures
            final(self)@ == old(self)@.close_hole(),
    {
        if self.stack.len() > 0 {
            assert(self@.nfa.is_epsilon(self@.stack[self@.stack.len() - 1].come_from()));
            let hole: Hole = self.stack.pop().unwrap();
            if let Hole::Concatenation { come_from, go_to } = hole {
                self.nfa.add_epsilon_transition(come_from, go_to);
            }
        }
    }

    /// Ends the walk and hands out the automaton.
    pub fn finish(self) -> (r: Result<NFA, BuildError>)
        requires
            self@.wf(),
        ensures
            r matches Ok(nfa) && nfa@ == self@.finish(),
    {
        let mut builder = self;
        builder.close_hole();
        Ok(builder.nfa)
    }
}

/// Opening a node keeps the kinds of the states that were there.
pub proof fn lemma_open_node_kinds(taken: BuilderModel, node: Ast, end: u32)
    requires
        taken.nfa.states.len() + BuilderModel::fresh_states(node) <= u32::MAX + 1,
    ensures
        extends_kinds(taken.nfa, taken.open_node(node, end).nfa),
{
    let start = taken.nfa.states.len() as u32;
    let eps = taken.nfa.add_state(StateModel::Epsilon(Seq::empty()));
    let non_eps = taken.nfa.add_state(StateModel::NonEpsilon(Seq::empty()));
    lemma_add_state_kinds(taken.nfa, StateModel::Epsilon(Seq::empty()));
    lemma_add_state_kinds(taken.nfa, StateModel::NonEpsilon(Seq::empty()));
    let r = taken.open_node(node, end).nfa;
    match node {
        Ast::Literal(bytes) => {
            lemma_literal_chain_kinds(non_eps, start, bytes@, end);
            assert forall|id: u32| #[trigger] taken.nfa.is_epsilon(id) implies r.is_epsilon(id) by {
                assert(non_eps.is_epsilon(id));
            }
            assert forall|id: u32| #[trigger] taken.nfa.is_non_epsilon(id) implies r.is_non_epsilon(
                id,
            ) by {
                assert(non_eps.is_non_epsilon(id));
            }
        },
        Ast::Class(ranges) => {
            lemma_class_moves_kinds(non_eps, start, ranges@, end);
            assert forall|id: u32| #[trigger] taken.nfa.is_epsilon(id) implies r.is_epsilon(id) by {
                assert(non_eps.is_epsilon(id));
            }
            assert forall|id: u32| #[trigger] taken.nfa.is_non_epsilon(id) implies r.is_non_epsilon(
                id,
            ) by {
                assert(non_eps.is_non_epsilon(id));
            }
        },
        Ast::Repetition(_) => {
            lemma_add_epsilon_transition_kinds(eps, start, end);
            assert forall|id: u32| #[trigger] taken.nfa.is_epsilon(id) implies r.is_epsilon(id) by {
                assert(eps.is_epsilon(id));
            }
            assert forall|id: u32| #[trigger] taken.nfa.is_non_epsilon(id) implies r.is_non_epsilon(
                id,
            ) by {
                assert(eps.is_non_epsilon(id));
            }
        },
        Ast::Concat(_) => {},
        Ast::Alternation(_) => {},
        Ast::Capture(_) => {},
        _ => {
            lemma_add_epsilon_transition_kinds(eps, start, end);
            assert forall|id: u32| #[trigger] taken.nfa.is_epsilon(id) implies r.is_epsilon(id) by {
                assert(eps.is_epsilon(id));
            }
            assert forall|id: u32| #[trigger] taken.nfa.is_non_epsilon(id) implies r.is_non_epsilon(
                id,
            ) by {
                assert(eps.is_non_epsilon(id));
            }
        },
    }
}

impl BuilderModel {
    /// The whole visit of the tree under `node`: the node is entered, its
    /// children are visited from left to right, the node is left.
    pub open spec fn visit(self, node: Ast) -> Result<BuilderModel, BuildError>
        decreases node, node.children().len() + 1,
    {
        match self.visit_pre(node) {
            Err(e) => Err(e),
            Ok(entered) => match entered.visit_from(node, 0) {
                Err(e) => Err(e),
                Ok(done) => Ok(done.visit_post(node)),
            },
        }
    }

    /// The visits of the children `from..` of `node`, from left to right.
    pub open spec fn visit_from(self, node: Ast, from: int) -> Result<BuilderModel, BuildError>
        decreases node, node.children().len() - from,
    {
        if 0 <= from < node.children().len() {
            proof {
                node.lemma_child_decreases(from);
            }
            match self.visit(node.children()[from]) {
                Err(e) => Err(e),
                Ok(b) => b.visit_from(node, from + 1),
            }
        } else {
            Ok(self)
        }
    }

    /// What is left to do when the walk stands at `frames`: each frame holds
    /// a node that was entered and the position of its next child; the
    /// topmost frame is the last.
    pub open spec fn resume(self, frames: Seq<(&Ast, usize)>) -> Result<BuilderModel, BuildError>
        decreases frames.len(),
    {
        if frames.len() == 0 {
            Ok(self)
        } else {
            match self.visit_from(*frames.last().0, frames.last().1 as int) {
                Err(e) => Err(e),
                Ok(b) => b.visit_post(*frames.last().0).resume(frames.drop_last()),
            }
        }
    }

    /// The automaton for `re`: a rejecting state without a way out is the one
    /// accept state, a fresh state is the start state, and the tree is built
    /// into the hole between the two.
    pub open spec fn build(self, re: Ast) -> Result<NfaModel, BuildError> {
        if self.nfa.states.len() + 2 > u32::MAX {
            Err(BuildError::TooManyStates)
        } else {
            let end = self.nfa.states.len() as u32;
            let start = (end + 1) as u32;
            let seeded = BuilderModel {
                nfa: self.nfa.add_state(StateModel::Fail).with_accept(end).add_state(
                    StateModel::Epsilon(Seq::empty()),
                ).with_start(start),
                stack: self.stack.push(Hole::Alternation { come_from: start, go_to: end }),
            };
            match seeded.visit(re) {
                Err(e) => Err(e),
                Ok(b) => Ok(b.finish()),
            }
        }
    }
}

/// Number of steps that the walk still takes at `frames`.
pub open spec fn pending_steps(frames: Seq<(&Ast, usize)>) -> nat
    decreases frames.len(),
{
    if frames.len() == 0 {
        0
    } else {
        1 + 2 * frames.last().0.count_from(frames.last().1 as int) + pending_steps(
            frames.drop_last(),
        )
    }
}

/// Unfolds [`BuilderModel::resume`] at its topmost frame.
proof fn lemma_resume_push(b: BuilderModel, below: Seq<(&Ast, usize)>, node: &Ast, from: usize)
    ensures
        b.resume(below.push((node, from))) == match b.visit_from(*node, from as int) {
            Err(e) => Err::<BuilderModel, BuildError>(e),
            Ok(x) => x.visit_post(*node).resume(below),
        },
{
    let frames = below.push((node, from));
    assert(frames.drop_last() =~= below);
    assert(frames.last() == (node, from));
}

impl Builder {
    /// Visits the tree under `root` without recursion: the frames hold the
    /// nodes that were entered and not yet left.
    fn walk(&mut self, root: &Ast) -> (r: Result<(), BuildError>)
        requires
            old(self)@.wf(),
        ensures
            match old(self)@.visit(*root) {
                Ok(b) => r is Ok && final(self)@ == b,
                Err(e) => r == Err::<(), BuildError>(e),
            },
            final(self)@.wf(),
    {
        match self.visit_pre(root) {
            Err(e) => {
                return Err(e);
            },
            Ok(()) => {},
        }
        let mut frames: Vec<(&Ast, usize)> = Vec::new();
        frames.push((root, 0));
        proof {
            let empty = Seq::<(&Ast, usize)>::empty();
            assert(frames@ =~= empty.push((root, 0usize)));
            lemma_resume_push(self@, empty, root, 0);
            if self@.visit_from(*root, 0) is Ok {
                let done = self@.visit_from(*root, 0)->Ok_0.visit_post(*root);
                assert(done.resume(empty) == Ok::<BuilderModel, BuildError>(done));
            }
        }
        while frames.len() > 0
            invariant
                self@.wf(),
                self@.resume(frames@) == old(self)@.visit(*root),
                forall|i: int|
                    0 <= i < frames@.len() ==> (#[trigger] frames@[i]).1
                        <= frames@[i].0.children().len(),
            decreases pending_steps(frames@),
        {
            let top: usize = frames.len() - 1;
            let node: &Ast = frames[top].0;
            let from: usize = frames[top].1;
            let ghost before = frames@;
            let ghost below = frames@.drop_last();
            let ghost b = self@;
            assert(before.last() == (node, from));
            if from < node.child_count() {
                let child: &Ast = node.child(from);
                frames.set(top, (node, from + 1));
                let ghost moved = frames@;
                proof {
                    assert(moved =~= below.push((node, (from + 1) as usize)));
                    assert(before =~= below.push((node, from)));
                    lemma_resume_push(b, below, node, from);
                    node.lemma_child_decreases(from as int);
                    assert(b.visit_from(*node, from as int) == match b.visit(*child) {
                        Err(e) => Err::<BuilderModel, BuildError>(e),
                        Ok(x) => x.visit_from(*node, from + 1),
                    });
                    assert(b.visit(*child) == match b.visit_pre(*child) {
                        Err(e) => Err::<BuilderModel, BuildError>(e),
                        Ok(entered) => match entered.visit_from(*child, 0) {
                            Err(e) => Err(e),
                            Ok(done) => Ok(done.visit_post(*child)),
                        },
                    });
                }
                match self.visit_pre(child) {
                    Err(e) => {
                        return Err(e);
                    },
                    Ok(()) => {},
                }
                frames.push((child, 0));
                proof {
                    assert(frames@ =~= moved.push((child, 0usize)));
                    lemma_resume_push(self@, moved, child, 0);
                    if self@.visit_from(*child, 0) is Ok {
                        let done = self@.visit_from(*child, 0)->Ok_0.visit_post(*child);
                        lemma_resume_push(done, below, node, (from + 1) as usize);
                    }
                    assert(frames@.drop_last() =~= moved);
                    assert(frames@.last() == (child, 0usize));
                    assert(moved.last() == (node, (from + 1) as usize));
                    assert(child.count_from(0) + 1 == child.node_count());
                    assert(pending_steps(frames@) == 1 + 2 * child.count_from(0) + pending_steps(
                        moved,
                    ));
                    assert(moved.drop_last() =~= below);
                    assert(pending_steps(moved) == 1 + 2 * moved.last().0.count_from(
                        moved.last().1 as int,
                    ) + pending_steps(moved.drop_last()));
                    assert(pending_steps(moved) == 1 + 2 * node.count_from(from + 1)
                        + pending_steps(below));
                    assert(pending_steps(before) == 1 + 2 * node.count_from(from as int)
                        + pending_steps(below));
                }
            } else {
                proof {
                    assert(before =~= below.push((node, from)));
                    lemma_resume_push(b, below, node, from);
                    assert(b.visit_from(*node, from as int) == Ok::<BuilderModel, BuildError>(b));
                }
                let _ = self.visit_post(node);
                frames.pop();
                assert(frames@ =~= below);
            }
        }
        Ok(())
    }

    /// Builds the automaton with epsilon moves for `re`: see
    /// [`BuilderModel::build`].
    pub fn build_nfa_from_re(self, re: &Ast) -> (r: Result<NFA, BuildError>)
        requires
            self@.wf(),
        ensures
            match self@.build(*re) {
                Ok(nfa) => r matches Ok(built) && built@ == nfa,
                Err(e) => r matches Err(err) && err == e,
            },
    {
        let mut builder = self;
        if builder.nfa.get_states_iter().len() as u128 + 2 > u32::MAX as u128 {
            return Err(BuildError::TooManyStates);
        }
        let ghost b0 = builder@;
        let end: u32 = builder.nfa.add_fail_state();
        builder.nfa.set_accept_state(end);
        let start: u32 = builder.nfa.add_epsilon_state();
        builder.nfa.set_start_state(start);
        builder.stack.push(Hole::Alternation { come_from: start, go_to: end });
        proof {
            let seeded = builder@;
            assert forall|i: int| 0 <= i < seeded.stack.len() implies seeded.nfa.is_epsilon(
                (#[trigger] seeded.stack[i]).come_from(),
            ) by {
                if i < b0.stack.len() {
                    assert(b0.nfa.is_epsilon(b0.stack[i].come_from()));
                }
            }
        }
        match builder.walk(re) {
            Err(e) => Err(e),
            Ok(()) => builder.finish(),
        }
    }
}

/// Whether some entry of `a` occurs in `b`.
fn any_common(a: &Vec<u32>, b: &Vec<u32>) -> (r: bool)
    ensures
        r == exists|q: u32| a@.contains(q) && b@.contains(q),
{
    let mut i: usize = 0;
    while i < a.len()
        invariant
            i <= a.len(),
            forall|j: int| 0 <= j < i ==> !b@.contains(#[trigger] a@[j]),
        decreases a.len() - i,
    {
        if contains_id(b, a[i]) {
            assert(a@.contains(a@[i as int]));
            return true;
        }
        i += 1;
    }
    false
}

impl Builder {
    /// One state for each state of `old_nfa`, without moves yet: a state
    /// without moves of its own accepts or rejects, any other state waits for
    /// its moves.
    fn add_image_states(&mut self, old_nfa: &NFA)
        requires
            old(self)@.nfa == NfaModel::empty(),
            old_nfa@.wf(),
        ensures
            final(self)@.stack == old(self)@.stack,
            final(self)@.nfa.states.len() == old_nfa@.states.len(),
            final(self)@.nfa.alphabet == Set::<u8>::empty(),
            final(self)@.nfa.start == None::<u32>,
            final(self)@.nfa.accept == Seq::<u32>::empty(),
            forall|s: u32|
                s < old_nfa@.states.len() ==> match #[trigger] final(self)@.nfa.states[s as int] {
                    StateModel::Fail => old_nfa@.hat_fail(s),
                    StateModel::Final => old_nfa@.hat_empty(s) && old_nfa@.accepting_closure(s),
                    StateModel::NonEpsilon(ts) => !old_nfa@.hat_empty(s) && ts.len() == 0,
                    StateModel::Epsilon(_) => false,
                },
    {
        let n: usize = old_nfa.get_states_iter().len();
        let mut id: usize = 0;
        while id < n
            invariant
                id <= n,
                n == old_nfa@.states.len(),
                old_nfa@.wf(),
                self@.stack == old(self)@.stack,
                self@.nfa.states.len() == id,
                self@.nfa.alphabet == Set::<u8>::empty(),
                self@.nfa.start == None::<u32>,
                self@.nfa.accept == Seq::<u32>::empty(),
                forall|s: u32|
                    s < id ==> match #[trigger] self@.nfa.states[s as int] {
                        StateModel::Fail => old_nfa@.hat_fail(s),
                        StateModel::Final => old_nfa@.hat_empty(s) && old_nfa@.accepting_closure(s),
                        StateModel::NonEpsilon(ts) => !old_nfa@.hat_empty(s) && ts.len() == 0,
                        StateModel::Epsilon(_) => false,
                    },
            decreases n - id,
        {
            let trans: Vec<(u8, u32)> = old_nfa.get_dalta_hat_transitions(id as u32);
            let ghost before = self@.nfa;
            proof {
                if trans@.len() > 0 {
                    assert(trans@.to_set().contains(trans@[0]));
                    assert(!old_nfa@.hat_empty(id as u32));
                } else {
                    let hat = old_nfa@.delta_hat(id as u32);
                    assert forall|m: (u8, u32)| !(#[trigger] hat.contains(m)) by {
                        if hat.contains(m) {
                            assert(trans@.to_set().contains(m));
                        }
                    }
                    assert(old_nfa@.hat_empty(id as u32));
                }
            }
            if trans.len() == 0 {
                let closure: (Vec<u32>, Vec<(u8, u32)>) = old_nfa.epsilon_closure_and_dalta(
                    id as u32,
                );
                let accepting: bool = any_common(&closure.0, old_nfa.accepts());
                proof {
                    if accepting {
                        let q = choose|q: u32|
                            closure.0@.contains(q) && old_nfa@.accept.contains(q);
                        assert(closure.0@.to_set().contains(q));
                    }
                    if old_nfa@.accepting_closure(id as u32) {
                        let q = choose|q: u32|
                            old_nfa@.closure(id as u32).contains(q) && old_nfa@.accept.contains(q);
                        assert(closure.0@.to_set().contains(q));
                    }
                }
                if accepting {
                    self.nfa.add_final_state();
                } else {
                    self.nfa.add_fail_state();
                }
            } else {
                self.nfa.add_non_epsilon_state();
            }
            proof {
                assert forall|s: u32| s < id + 1 implies match #[trigger] self@.nfa.states[s as int] {
                    StateModel::Fail => old_nfa@.hat_fail(s),
                    StateModel::Final => old_nfa@.hat_empty(s) && old_nfa@.accepting_closure(s),
                    StateModel::NonEpsilon(ts) => !old_nfa@.hat_empty(s) && ts.len() == 0,
                    StateModel::Epsilon(_) => false,
                } by {
                    if s < id {
                        assert(self@.nfa.states[s as int] == before.states[s as int]);
                    }
                }
            }
            id += 1;
        }
    }

    /// Gives state `id` of the image its kept moves.
    fn add_image_moves(&mut self, old_nfa: &NFA, id: u32)
        requires
            old_nfa@.wf(),
            id < old_nfa@.states.len(),
            old(self)@.nfa.states.len() == old_nfa@.states.len(),
            old(self)@.nfa.states[id as int] == StateModel::NonEpsilon(Seq::empty()),
            forall|s: u32|
                s < old_nfa@.states.len() ==> (#[trigger] old(self)@.nfa.states[s as int] is Fail
                    <==> old_nfa@.hat_fail(s)),
        ensures
            final(self)@.stack == old(self)@.stack,
            final(self)@.nfa.start == old(self)@.nfa.start,
            final(self)@.nfa.accept == old(self)@.nfa.accept,
            final(self)@.nfa.states.len() == old(self)@.nfa.states.len(),
            forall|s: int|
                0 <= s < old(self)@.nfa.states.len() && s != id
                    ==> #[trigger] final(self)@.nfa.states[s] == old(self)@.nfa.states[s],
            final(self)@.nfa.states[id as int] is NonEpsilon,
            final(self)@.nfa.states[id as int].moves().to_set() == old_nfa@.hat_moves(id),
            forall|a: u8|
                #[trigger] final(self)@.nfa.alphabet.contains(a) <==> (
                old(self)@.nfa.alphabet.contains(a) || exists|t: u32| #[trigger]
                    old_nfa@.hat_moves(id).contains((a, t))),
    {
        let trans: Vec<(u8, u32)> = old_nfa.get_dalta_hat_transitions(id);
        let mut k: usize = 0;
        while k < trans.len()
            invariant
                k <= trans.len(),
                old_nfa@.wf(),
                id < old_nfa@.states.len(),
                trans@.to_set() == old_nfa@.delta_hat(id),
                forall|i: int| 0 <= i < trans@.len() ==> (#[trigger] trans@[i]).1
                    < old_nfa@.states.len(),
                self@.stack == old(self)@.stack,
                self@.nfa.start == old(self)@.nfa.start,
                self@.nfa.accept == old(self)@.nfa.accept,
                self@.nfa.states.len() == old(self)@.nfa.states.len(),
                self@.nfa.states.len() == old_nfa@.states.len(),
                forall|s: int|
                    0 <= s < old(self)@.nfa.states.len() && s != id
                        ==> #[trigger] self@.nfa.states[s] == old(self)@.nfa.states[s],
                forall|s: u32|
                    s < old_nfa@.states.len() ==> (#[trigger] old(self)@.nfa.states[s as int]
                        is Fail <==> old_nfa@.hat_fail(s)),
                old(self)@.nfa.states[id as int] is NonEpsilon,
                self@.nfa.states[id as int] is NonEpsilon,
                forall|m: (u8, u32)|
                    #[trigger] self@.nfa.states[id as int].moves().contains(m) <==> (
                    trans@.subrange(0, k as int).contains(m) && !old_nfa@.hat_fail(m.1)),
                forall|a: u8|
                    #[trigger] self@.nfa.alphabet.contains(a) <==> (
                    old(self)@.nfa.alphabet.contains(a) || exists|t: u32|
                        trans@.subrange(0, k as int).contains((a, t)) && !old_nfa@.hat_fail(t)),
            decreases trans.len() - k,
        {
            let input: u8 = trans[k].0;
            let to: u32 = trans[k].1;
            let ghost before = self@.nfa;
            let ghost done = trans@.subrange(0, k as int);
            assert(trans@.subrange(0, k + 1) =~= done.push((input, to)));
            let kept: bool = match &self.nfa.get_states_iter()[to as usize] {
                State::Fail => false,
                _ => true,
            };
            proof {
                if to != id {
                    assert(before.states[to as int] == old(self)@.nfa.states[to as int]);
                }
                assert(kept == !old_nfa@.hat_fail(to));
            }
            if kept {
                self.nfa.add_transition(id, input, to);
            }
            proof {
                let after = self@.nfa;
                assert forall|m: (u8, u32)| #[trigger]
                    after.states[id as int].moves().contains(m) <==> (done.push(
                        (input, to),
                    ).contains(m) && !old_nfa@.hat_fail(m.1)) by {
                    lemma_push_contains(done, (input, to), m);
                    lemma_push_contains(before.states[id as int].moves(), (input, to), m);
                }
                assert forall|a: u8| #[trigger]
                    after.alphabet.contains(a) <==> (old(self)@.nfa.alphabet.contains(a)
                        || exists|t: u32|
                        done.push((input, to)).contains((a, t)) && !old_nfa@.hat_fail(t)) by {
                    if before.alphabet.contains(a) && !old(self)@.nfa.alphabet.contains(a) {
                        let t = choose|t: u32| done.contains((a, t)) && !old_nfa@.hat_fail(t);
                        lemma_push_contains(done, (input, to), (a, t));
                    }
                    if kept && a == input {
                        lemma_push_contains(done, (input, to), (a, to));
                    }
                    if exists|t: u32|
                        done.push((input, to)).contains((a, t)) && !old_nfa@.hat_fail(t) {
                        let t = choose|t: u32|
                            done.push((input, to)).contains((a, t)) && !old_nfa@.hat_fail(t);
                        lemma_push_contains(done, (input, to), (a, t));
                    }
                }
            }
            k += 1;
        }
        proof {
            assert(trans@.subrange(0, trans@.len() as int) =~= trans@);
            let after = self@.nfa;
            assert(after.states[id as int].moves().to_set() =~= old_nfa@.hat_moves(id)) by {
                assert forall|m: (u8, u32)|
                    after.states[id as int].moves().to_set().contains(m)
                        <==> old_nfa@.hat_moves(id).contains(m) by {
                    if old_nfa@.hat_moves(id).contains(m) {
                        assert(trans@.to_set().contains(m));
                    }
                    if after.states[id as int].moves().contains(m) {
                        assert(trans@.to_set().contains(m));
                    }
                }
            }
            assert forall|a: u8| #[trigger]
                after.alphabet.contains(a) <==> (old(self)@.nfa.alphabet.contains(a)
                    || exists|t: u32| #[trigger] old_nfa@.hat_moves(id).contains((a, t))) by {
                if after.alphabet.contains(a) && !old(self)@.nfa.alphabet.contains(a) {
                    let t = choose|t: u32| trans@.contains((a, t)) && !old_nfa@.hat_fail(t);
                    assert(trans@.to_set().contains((a, t)));
                    assert(old_nfa@.hat_moves(id).contains((a, t)));
                }
                if exists|t: u32| #[trigger] old_nfa@.hat_moves(id).contains((a, t)) {
                    let t = choose|t: u32| #[trigger] old_nfa@.hat_moves(id).contains((a, t));
                    assert(trans@.to_set().contains((a, t)));
                }
            }
        }
    }
}

impl Builder {
    /// Builds the automaton without epsilon moves that stands for `old_nfa`:
    /// its image state by state (see [`NfaModel::epsilon_free_image`]), with
    /// the states that the start state does not reach turned into rejecting
    /// states, and those dropped; the start state and the accept state get
    /// their new numbers. The builder must be a new one.
    pub fn build_non_epsilon_nfa(self, old_nfa: &NFA) -> (r: Result<NFA, BuildError>)
        requires
            self@.nfa == NfaModel::empty(),
            old_nfa@.wf(),
            old_nfa@.start matches Some(s0) && s0 < old_nfa@.states.len(),
            old_nfa@.accept.len() > 0,
        ensures
            r matches Ok(nfa) && nfa@.wf() && exists|image: NfaModel| #[trigger]
                old_nfa@.epsilon_free_image(image) && nfa@ == image.pruned().compacted(),
            r matches Ok(nfa) && nfa@.no_state_dropped_or_unreached(),
    {
        let mut builder = self;
        let n: usize = old_nfa.get_states_iter().len();
        builder.add_image_states(old_nfa);
        let mut id: usize = 0;
        while id < n
            invariant
                id <= n,
                n == old_nfa@.states.len(),
                old_nfa@.wf(),
                builder@.nfa.states.len() == n,
                builder@.nfa.start == None::<u32>,
                builder@.nfa.accept == Seq::<u32>::empty(),
                forall|s: u32|
                    s < n ==> match #[trigger] builder@.nfa.states[s as int] {
                        StateModel::Fail => old_nfa@.hat_fail(s),
                        StateModel::Final => old_nfa@.hat_empty(s) && old_nfa@.accepting_closure(s),
                        StateModel::NonEpsilon(ts) => !old_nfa@.hat_empty(s) && (if s < id {
                            ts.to_set() == old_nfa@.hat_moves(s)
                        } else {
                            ts.len() == 0
                        }),
                        StateModel::Epsilon(_) => false,
                    },
                forall|a: u8|
                    #[trigger] builder@.nfa.alphabet.contains(a) <==> exists|s: u32, t: u32|
                        s < id && #[trigger] old_nfa@.hat_moves(s).contains((a, t)),
            decreases n - id,
        {
            let ghost before = builder@.nfa;
            let live: bool = match &builder.nfa.get_states_iter()[id] {
                State::NonEpsilon(_) => true,
                _ => false,
            };
            if live {
                proof {
                    assert(before.states[id as int] is NonEpsilon);
                    assert(before.states[id as int]->NonEpsilon_0 =~= Seq::empty());
                    assert forall|s: u32| s < n implies (#[trigger] before.states[s as int]
                        is Fail <==> old_nfa@.hat_fail(s)) by {}
                }
                builder.add_image_moves(old_nfa, id as u32);
            }
            proof {
                let after = builder@.nfa;
                let cur = id as u32;
                assert forall|s: u32| s < n implies match #[trigger] after.states[s as int] {
                    StateModel::Fail => old_nfa@.hat_fail(s),
                    StateModel::Final => old_nfa@.hat_empty(s) && old_nfa@.accepting_closure(s),
                    StateModel::NonEpsilon(ts) => !old_nfa@.hat_empty(s) && (if s < id + 1 {
                        ts.to_set() == old_nfa@.hat_moves(s)
                    } else {
                        ts.len() == 0
                    }),
                    StateModel::Epsilon(_) => false,
                } by {
                    if s != cur {
                        assert(after.states[s as int] == before.states[s as int]);
                    } else {
                        assert(before.states[cur as int] is NonEpsilon == live);
                    }
                }
                if !live {
                    assert(old_nfa@.hat_empty(cur));
                }
                assert forall|a: u8| #[trigger]
                    after.alphabet.contains(a) <==> exists|s: u32, t: u32|
                        s < id + 1 && #[trigger] old_nfa@.hat_moves(s).contains((a, t)) by {
                    if after.alphabet.contains(a) {
                        if before.alphabet.contains(a) {
                            let (s, t) = choose|s: u32, t: u32|
                                s < id && #[trigger] old_nfa@.hat_moves(s).contains((a, t));
                            assert(s < id + 1 && old_nfa@.hat_moves(s).contains((a, t)));
                        } else {
                            let t = choose|t: u32| #[trigger]
                                old_nfa@.hat_moves(cur).contains((a, t));
                            assert(cur < id + 1 && old_nfa@.hat_moves(cur).contains((a, t)));
                        }
                    }
                    if exists|s: u32, t: u32|
                        s < id + 1 && #[trigger] old_nfa@.hat_moves(s).contains((a, t)) {
                        let (s, t) = choose|s: u32, t: u32|
                            s < id + 1 && #[trigger] old_nfa@.hat_moves(s).contains((a, t));
                        if s < id {
                            assert(before.alphabet.contains(a));
                        } else {
                            assert(s == cur);
                            assert(old_nfa@.delta_hat(cur).contains((a, t)));
                        }
                    }
                }
            }
            id += 1;
        }
        builder.nfa.set_start_state(old_nfa.start().unwrap());
        builder.nfa.set_accept_state(old_nfa.accepts()[0]);
        let ghost image = builder@.nfa;
        proof {
            assert(image.accept =~= seq![old_nfa@.accept[0]]);
            assert(image.alphabet =~= Set::new(
                |a: u8|
                    exists|s: u32, t: u32|
                        s < old_nfa@.states.len() && #[trigger] old_nfa@.hat_moves(s).contains(
                            (a, t),
                        ),
            ));
            assert(old_nfa@.epsilon_free_image(image));
            crate::epsilon::lemma_image_wf(old_nfa@, image);
        }
        let dropped: HashSet<u32> = builder.nfa.search_unreachable_states();
        let unreachable: Vec<u32> = crate::graph::members_of(&dropped);
        assert forall|x: u32| #[trigger] unreachable@.contains(x) <==> x < image.states.len()
            && !image.reachable(x) by {
            assert(unreachable@.to_set().contains(x) == dropped@.contains(x));
        }
        let mut k: usize = 0;
        while k < unreachable.len()
            invariant
                k <= unreachable.len(),
                image.states.len() <= u32::MAX,
                forall|x: u32|
                    #[trigger] unreachable@.contains(x) <==> x < image.states.len()
                        && !image.reachable(x),
                builder@.nfa.alphabet == image.alphabet,
                builder@.nfa.start == image.start,
                builder@.nfa.accept == image.accept,
                builder@.nfa.states.len() == image.states.len(),
                forall|i: int|
                    0 <= i < image.states.len() ==> #[trigger] builder@.nfa.states[i] == (
                    if unreachable@.subrange(0, k as int).contains(i as u32) {
                        StateModel::Fail
                    } else {
                        image.states[i]
                    }),
            decreases unreachable.len() - k,
        {
            let x: u32 = unreachable[k];
            let ghost done = unreachable@.subrange(0, k as int);
            assert(unreachable@.subrange(0, k + 1) =~= done.push(x));
            assert(unreachable@.contains(x));
            builder.nfa.set_fail(x);
            proof {
                assert forall|i: int| 0 <= i < image.states.len() implies
                    #[trigger] builder@.nfa.states[i] == (if done.push(x).contains(i as u32) {
                        StateModel::Fail
                    } else {
                        image.states[i]
                    }) by {
                    lemma_push_contains(done, x, i as u32);
                }
            }
            k += 1;
        }
        proof {
            assert(unreachable@.subrange(0, unreachable@.len() as int) =~= unreachable@);
            let pruned = image.pruned();
            assert(builder@.nfa.states =~= pruned.states);
            assert(builder@.nfa == pruned);
            crate::epsilon::lemma_pruned_wf(old_nfa@, image);
            crate::epsilon::lemma_eliminated_wf(old_nfa@, image);
            crate::epsilon::lemma_eliminated_shape(old_nfa@, image);
        }
        builder.nfa.remap_states();
        Ok(builder.nfa)
    }
}

/// The two automata have one start state and the same accept states, and the
/// rejecting states without a way out of the first are such states of the
/// second.
pub open spec fn same_ends(a: NfaModel, b: NfaModel) -> bool {
    &&& a.start == b.start
    &&& a.accept == b.accept
    &&& a.states.len() <= b.states.len()
    &&& forall|i: int|
        0 <= i < a.states.len() && a.states[i] is Fail ==> (#[trigger] b.states[i]) is Fail
}

/// What keeps the ends twice keeps them.
pub proof fn lemma_same_ends_trans(a: NfaModel, b: NfaModel, c: NfaModel)
    requires
        same_ends(a, b),
        same_ends(b, c),
    ensures
        same_ends(a, c),
{
    assert forall|i: int| 0 <= i < a.states.len() && a.states[i] is Fail implies (
    #[trigger] c.states[i]) is Fail by {
        assert(b.states[i] is Fail);
    }
}

/// A state without moves more keeps the automaton well formed.
pub proof fn lemma_add_state_sound(nfa: NfaModel, s: StateModel)
    requires
        nfa.wf(),
        nfa.states.len() < u32::MAX,
        s.eps_targets().len() == 0,
        s.moves().len() == 0,
    ensures
        nfa.add_state(s).wf(),
        same_ends(nfa, nfa.add_state(s)),
{
    let b = nfa.add_state(s);
    assert forall|i: int, k: int|
        0 <= i < b.states.len() && 0 <= k < b.states[i].eps_targets().len() implies (
    #[trigger] b.states[i].eps_targets()[k]) < b.states.len() by {
        assert(b.states[i] == nfa.states[i]);
        assert(nfa.states[i].eps_targets()[k] < nfa.states.len());
    }
    assert forall|i: int, k: int|
        0 <= i < b.states.len() && 0 <= k < b.states[i].moves().len() implies (
    #[trigger] b.states[i].moves()[k]).1 < b.states.len() && b.alphabet.contains(
        b.states[i].moves()[k].0,
    ) by {
        assert(b.states[i] == nfa.states[i]);
        assert(nfa.states[i].moves()[k].1 < nfa.states.len());
    }
}

/// A symbol move to an existing state keeps the automaton well formed.
pub proof fn lemma_add_transition_sound(nfa: NfaModel, from: u32, input: u8, to: u32)
    requires
        nfa.wf(),
        nfa.is_non_epsilon(from),
        to < nfa.states.len(),
    ensures
        nfa.add_transition(from, input, to).wf(),
        same_ends(nfa, nfa.add_transition(from, input, to)),
{
    let b = nfa.add_transition(from, input, to);
    assert forall|i: int, k: int|
        0 <= i < b.states.len() && 0 <= k < b.states[i].eps_targets().len() implies (
    #[trigger] b.states[i].eps_targets()[k]) < b.states.len() by {
        if i != from {
            assert(b.states[i] == nfa.states[i]);
            assert(nfa.states[i].eps_targets()[k] < nfa.states.len());
        }
    }
    assert forall|i: int, k: int|
        0 <= i < b.states.len() && 0 <= k < b.states[i].moves().len() implies (
    #[trigger] b.states[i].moves()[k]).1 < b.states.len() && b.alphabet.contains(
        b.states[i].moves()[k].0,
    ) by {
        if i != from {
            assert(b.states[i] == nfa.states[i]);
            assert(nfa.states[i].moves()[k].1 < nfa.states.len());
        } else if k < nfa.states[i].moves().len() {
            assert(b.states[i].moves()[k] == nfa.states[i].moves()[k]);
            assert(nfa.states[i].moves()[k].1 < nfa.states.len());
        }
    }
}

/// An epsilon move to an existing state keeps the automaton well formed.
pub proof fn lemma_add_epsilon_transition_sound(nfa: NfaModel, from: u32, to: u32)
    requires
        nfa.wf(),
        nfa.is_epsilon(from),
        to < nfa.states.len(),
    ensures
        nfa.add_epsilon_transition(from, to).wf(),
        same_ends(nfa, nfa.add_epsilon_transition(from, to)),
{
    let b = nfa.add_epsilon_transition(from, to);
    assert forall|i: int, k: int|
        0 <= i < b.states.len() && 0 <= k < b.states[i].eps_targets().len() implies (
    #[trigger] b.states[i].eps_targets()[k]) < b.states.len() by {
        if i != from {
            assert(b.states[i] == nfa.states[i]);
            assert(nfa.states[i].eps_targets()[k] < nfa.states.len());
        } else if k < nfa.states[i].eps_targets().len() {
            assert(b.states[i].eps_targets()[k] == nfa.states[i].eps_targets()[k]);
            assert(nfa.states[i].eps_targets()[k] < nfa.states.len());
        }
    }
    assert forall|i: int, k: int|
        0 <= i < b.states.len() && 0 <= k < b.states[i].moves().len() implies (
    #[trigger] b.states[i].moves()[k]).1 < b.states.len() && b.alphabet.contains(
        b.states[i].moves()[k].0,
    ) by {
        if i != from {
            assert(b.states[i] == nfa.states[i]);
            assert(nfa.states[i].moves()[k].1 < nfa.states.len());
        }
    }
}

/// The chain of a literal keeps the automaton well formed.
pub proof fn lemma_literal_chain_sound(nfa: NfaModel, current: u32, bytes: Seq<u8>, end: u32)
    requires
        nfa.wf(),
        nfa.is_non_epsilon(current),
        end < nfa.states.len(),
        nfa.states.len() + bytes.len() <= u32::MAX + 1,
    ensures
        literal_chain(nfa, current, bytes, end).wf(),
        same_ends(nfa, literal_chain(nfa, current, bytes, end)),
    decreases bytes.len(),
{
    if bytes.len() == 0 {
    } else if bytes.len() == 1 {
        lemma_add_transition_sound(nfa, current, bytes[0], end);
    } else {
        let next = nfa.states.len() as u32;
        let n1 = nfa.add_state(StateModel::NonEpsilon(Seq::empty()));
        lemma_add_state_sound(nfa, StateModel::NonEpsilon(Seq::empty()));
        lemma_add_state_kinds(nfa, StateModel::NonEpsilon(Seq::empty()));
        let n2 = n1.add_transition(current, bytes[0], next);
        lemma_add_transition_sound(n1, current, bytes[0], next);
        lemma_add_transition_kinds(n1, current, bytes[0], next);
        assert(n2.is_non_epsilon(next) == n1.is_non_epsilon(next));
        lemma_literal_chain_sound(n2, next, bytes.drop_first(), end);
        lemma_same_ends_trans(nfa, n1, n2);
        lemma_same_ends_trans(nfa, n2, literal_chain(nfa, current, bytes, end));
    }
}

/// The moves of a range keep the automaton well formed.
pub proof fn lemma_range_moves_sound(nfa: NfaModel, start: u32, lo: int, hi: int, end: u32)
    requires
        nfa.wf(),
        nfa.is_non_epsilon(start),
        end < nfa.states.len(),
    ensures
        range_moves(nfa, start, lo, hi, end).wf(),
        same_ends(nfa, range_moves(nfa, start, lo, hi, end)),
        range_moves(nfa, start, lo, hi, end).states.len() == nfa.states.len(),
    decreases hi - lo + 1,
{
    if lo <= hi {
        let n1 = nfa.add_transition(start, lo as u8, end);
        lemma_add_transition_sound(nfa, start, lo as u8, end);
        lemma_add_transition_kinds(nfa, start, lo as u8, end);
        assert(n1.is_non_epsilon(start) == nfa.is_non_epsilon(start));
        lemma_range_moves_sound(n1, start, lo + 1, hi, end);
        lemma_same_ends_trans(nfa, n1, range_moves(nfa, start, lo, hi, end));
    }
}

/// The moves of a class keep the automaton well formed.
pub proof fn lemma_class_moves_sound(nfa: NfaModel, start: u32, ranges: Seq<(u8, u8)>, end: u32)
    requires
        nfa.wf(),
        nfa.is_non_epsilon(start),
        end < nfa.states.len(),
    ensures
        class_moves(nfa, start, ranges, end).wf(),
        same_ends(nfa, class_moves(nfa, start, ranges, end)),
    decreases ranges.len(),
{
    if ranges.len() > 0 {
        let n1 = range_moves(nfa, start, ranges[0].0 as int, ranges[0].1 as int, end);
        lemma_range_moves_sound(nfa, start, ranges[0].0 as int, ranges[0].1 as int, end);
        lemma_range_moves_kinds(nfa, start, ranges[0].0 as int, ranges[0].1 as int, end);
        assert(n1.is_non_epsilon(start) == nfa.is_non_epsilon(start));
        lemma_class_moves_sound(n1, start, ranges.drop_first(), end);
        lemma_same_ends_trans(nfa, n1, class_moves(nfa, start, ranges, end));
    }
}

impl BuilderModel {
    /// The automaton under construction is well formed and every hole leads
    /// to an existing state.
    pub open spec fn sound(self) -> bool {
        &&& self.wf()
        &&& self.nfa.wf()
        &&& forall|i: int|
            0 <= i < self.stack.len() ==> (#[trigger] self.stack[i]).go_to() < self.nfa.states.len()
    }
}

/// Entering a node keeps the builder sound, and keeps the start and accept
/// states.
pub proof fn lemma_visit_pre_sound(b: BuilderModel, node: Ast)
    requires
        b.sound(),
        b.visit_pre(node) is Ok,
    ensures
        b.visit_pre(node)->Ok_0.sound(),
        same_ends(b.nfa, b.visit_pre(node)->Ok_0.nfa),
{
    lemma_visit_pre_wf(b, node);
    let end = b.nfa.states.len() as u32;
    let start = (end + 1) as u32;
    let hole = b.stack.last();
    let eps_state = StateModel::Epsilon(Seq::empty());
    let non_eps_state = StateModel::NonEpsilon(Seq::empty());
    let n1 = b.nfa.add_state(eps_state);
    lemma_add_state_sound(b.nfa, eps_state);
    lemma_add_state_kinds(b.nfa, eps_state);
    let taken = BuilderModel { nfa: n1, stack: b.stack_after_take(end) };
    assert(b.stack[b.stack.len() - 1] == hole);
    assert(b.nfa.is_epsilon(hole.come_from()));
    assert(hole.go_to() < b.nfa.states.len());
    let eps = n1.add_state(eps_state);
    let non_eps = n1.add_state(non_eps_state);
    lemma_add_state_sound(n1, eps_state);
    lemma_add_state_sound(n1, non_eps_state);
    lemma_add_state_kinds(n1, eps_state);
    lemma_add_state_kinds(n1, non_eps_state);
    let opened = taken.open_node(node, end);
    lemma_open_node_kinds(taken, node, end);
    assert(opened.nfa.wf() && same_ends(n1, opened.nfa) && opened.nfa.states.len() > start) by {
        match node {
            Ast::Literal(bytes) => {
                lemma_literal_chain_sound(non_eps, start, bytes@, end);
                lemma_literal_chain_kinds(non_eps, start, bytes@, end);
                lemma_same_ends_trans(n1, non_eps, opened.nfa);
            },
            Ast::Class(ranges) => {
                lemma_class_moves_sound(non_eps, start, ranges@, end);
                lemma_class_moves_kinds(non_eps, start, ranges@, end);
                lemma_same_ends_trans(n1, non_eps, opened.nfa);
            },
            Ast::Repetition(_) => {
                lemma_add_epsilon_transition_sound(eps, start, end);
                lemma_same_ends_trans(n1, eps, opened.nfa);
            },
            Ast::Concat(_) => {},
            Ast::Alternation(_) => {},
            Ast::Capture(_) => {},
            _ => {
                lemma_add_epsilon_transition_sound(eps, start, end);
                lemma_same_ends_trans(n1, eps, opened.nfa);
            },
        }
    }
    assert(n1.is_epsilon(end));
    assert(n1.is_epsilon(hole.come_from()));
    assert(opened.nfa.is_epsilon(end));
    assert(opened.nfa.is_epsilon(hole.come_from()));
    let entered = opened.nfa.add_epsilon_transition(hole.come_from(), start);
    lemma_add_epsilon_transition_sound(opened.nfa, hole.come_from(), start);
    lemma_add_epsilon_transition_kinds(opened.nfa, hole.come_from(), start);
    assert(entered.is_epsilon(end) == opened.nfa.is_epsilon(end));
    let spliced = BuilderModel::splice(opened.nfa, hole, start, end);
    assert(spliced.wf() && same_ends(opened.nfa, spliced) && spliced.states.len()
        == opened.nfa.states.len()) by {
        match hole {
            Hole::Repetition { come_from, go_to } => {
                let e2 = entered.add_epsilon_transition(end, go_to);
                lemma_add_epsilon_transition_sound(entered, end, go_to);
                lemma_add_epsilon_transition_kinds(entered, end, go_to);
                assert(e2.is_epsilon(end) == entered.is_epsilon(end));
                lemma_add_epsilon_transition_sound(e2, end, start);
                lemma_same_ends_trans(opened.nfa, entered, e2);
                lemma_same_ends_trans(opened.nfa, e2, spliced);
            },
            Hole::Alternation { come_from, go_to } => {
                lemma_add_epsilon_transition_sound(entered, end, go_to);
                lemma_same_ends_trans(opened.nfa, entered, spliced);
            },
            Hole::Concatenation { .. } => {},
        }
    }
    let r = b.visit_pre(node)->Ok_0;
    assert(r.nfa == spliced && r.stack == opened.stack);
    lemma_same_ends_trans(b.nfa, n1, opened.nfa);
    lemma_same_ends_trans(b.nfa, opened.nfa, spliced);
    assert forall|i: int| 0 <= i < r.stack.len() implies (#[trigger] r.stack[i]).go_to()
        < r.nfa.states.len() by {
        if i < b.stack.len() - 1 {
            assert(taken.stack[i] == b.stack[i]);
            assert(opened.stack[i] == taken.stack[i]);
            assert(b.stack[i].go_to() < b.nfa.states.len());
        } else if i < taken.stack.len() {
            assert(opened.stack[i] == taken.stack[i]);
        } else {
            assert(opened.stack[i].go_to() == end);
        }
    }
}

/// Closing a hole keeps the builder sound, and keeps the start and accept states.
pub proof fn lemma_close_hole_sound(b: BuilderModel)
    requires
        b.sound(),
    ensures
        b.close_hole().sound(),
        same_ends(b.nfa, b.close_hole().nfa),
{
    lemma_close_hole_wf(b);
    let r = b.close_hole();
    if b.stack.len() > 0 {
        assert(b.nfa.is_epsilon(b.stack[b.stack.len() - 1].come_from()));
        assert(b.stack[b.stack.len() - 1].go_to() < b.nfa.states.len());
        match b.stack.last() {
            Hole::Concatenation { come_from, go_to } => {
                lemma_add_epsilon_transition_sound(b.nfa, come_from, go_to);
            },
            _ => {},
        }
        assert forall|i: int| 0 <= i < r.stack.len() implies (#[trigger] r.stack[i]).go_to()
            < r.nfa.states.len() by {
            assert(b.stack[i].go_to() < b.nfa.states.len());
        }
    }
}

/// The visit of a tree keeps the builder sound, and keeps the start and accept states.
pub proof fn lemma_visit_sound(b: BuilderModel, node: Ast)
    requires
        b.sound(),
        b.visit(node) is Ok,
    ensures
        b.visit(node)->Ok_0.sound(),
        same_ends(b.nfa, b.visit(node)->Ok_0.nfa),
    decreases node, node.children().len() + 1,
{
    lemma_visit_pre_sound(b, node);
    let entered = b.visit_pre(node)->Ok_0;
    lemma_visit_from_sound(entered, node, 0);
    let done = entered.visit_from(node, 0)->Ok_0;
    lemma_close_hole_sound(done);
    lemma_same_ends_trans(b.nfa, entered.nfa, done.nfa);
    lemma_same_ends_trans(b.nfa, done.nfa, done.close_hole().nfa);
}

/// The visits of the children of a node keep the builder sound, and keep the start and
/// accept states.
pub proof fn lemma_visit_from_sound(b: BuilderModel, node: Ast, from: int)
    requires
        b.sound(),
        b.visit_from(node, from) is Ok,
    ensures
        b.visit_from(node, from)->Ok_0.sound(),
        same_ends(b.nfa, b.visit_from(node, from)->Ok_0.nfa),
    decreases node, node.children().len() - from,
{
    if 0 <= from < node.children().len() {
        node.lemma_child_decreases(from);
        lemma_visit_sound(b, node.children()[from]);
        let next = b.visit(node.children()[from])->Ok_0;
        lemma_visit_from_sound(next, node, from + 1);
        lemma_same_ends_trans(b.nfa, next.nfa, b.visit_from(node, from)->Ok_0.nfa);
    }
}

/// The automaton that a new builder builds is well formed; its start state
/// is state 1, and its one accept state is state 0, a rejecting state
/// without a way out.
pub proof fn lemma_built_sound(re: Ast)
    requires
        (BuilderModel { nfa: NfaModel::empty(), stack: Seq::empty() }).build(re) is Ok,
    ensures
        ({
            let nfa = (BuilderModel { nfa: NfaModel::empty(), stack: Seq::empty() }).build(
                re,
            )->Ok_0;
            &&& nfa.wf()
            &&& nfa.start matches Some(s) && s < nfa.states.len()
            &&& nfa.accept.len() == 1
            &&& nfa.accept[0] < nfa.states.len()
            &&& nfa.states[nfa.accept[0] as int] is Fail
            &&& nfa.start == Some(1u32)
            &&& nfa.accept[0] == 0
        }),
{
    let fresh = BuilderModel { nfa: NfaModel::empty(), stack: Seq::empty() };
    let end = 0u32;
    let start = 1u32;
    let empty = NfaModel::empty();
    let n1 = empty.add_state(StateModel::Fail);
    assert(empty.wf());
    lemma_add_state_sound(empty, StateModel::Fail);
    let n2 = n1.with_accept(end);
    assert(n2.wf());
    let n3 = n2.add_state(StateModel::Epsilon(Seq::empty()));
    lemma_add_state_sound(n2, StateModel::Epsilon(Seq::empty()));
    let n4 = n3.with_start(start);
    assert(n4.wf());
    let seeded = BuilderModel {
        nfa: n4,
        stack: fresh.stack.push(Hole::Alternation { come_from: start, go_to: end }),
    };
    assert(seeded.sound()) by {
        assert(seeded.stack[0].come_from() == start);
        assert(n4.is_epsilon(start));
    }
    lemma_visit_sound(seeded, re);
    let visited = seeded.visit(re)->Ok_0;
    lemma_close_hole_sound(visited);
    assert(n4.accept =~= seq![end]);
    assert(n4.states[0] is Fail);
    lemma_same_ends_trans(n4, visited.nfa, visited.close_hole().nfa);
}

/// `stack` with `count` holes for the branches of an alternation on top.
pub open spec fn with_branches(stack: Seq<Hole>, start: u32, end: u32, count: int) -> Seq<Hole> {
    stack + Seq::new(count as nat, |i: int| Hole::Alternation { come_from: start, go_to: end })
}

/// What the visit of the children `from..` of `node` leaves of the holes:
/// `base` with the hole of a concatenation on top, if `node` is one, and else
/// `base` alone. The visit fails for a lookaround assertion or for want of
/// state ids only.
pub proof fn lemma_visit_from_stack(b: BuilderModel, node: Ast, from: int, base: Seq<Hole>, end: u32)
    requires
        0 <= from <= node.children().len(),
        match node {
            Ast::Concat(_) => b.stack.len() > 0 && b.stack.drop_last() == base && (
            b.stack.last() matches Hole::Concatenation { go_to, .. } && go_to == end),
            Ast::Alternation(subs) => exists|start: u32|
                b.stack == #[trigger] with_branches(base, start, end, subs@.len() - from),
            Ast::Repetition(_) => if from == 0 {
                b.stack.len() > 0 && b.stack.drop_last() == base && !(b.stack.last()
                    is Concatenation)
            } else {
                b.stack == base
            },
            Ast::Capture(_) => if from == 0 {
                b.stack.len() > 0 && b.stack.drop_last() == base && !(b.stack.last()
                    is Concatenation)
            } else {
                b.stack == base
            },
            _ => b.stack == base,
        },
    ensures
        match b.visit_from(node, from) {
            Ok(r) => !node.has_look_from(from) && match node {
                Ast::Concat(_) => r.stack.len() > 0 && r.stack.drop_last() == base && (
                r.stack.last() matches Hole::Concatenation { go_to, .. } && go_to == end),
                _ => r.stack == base,
            },
            Err(BuildError::UnsupportedConstruct) => node.has_look_from(from),
            Err(BuildError::TooManyStates) => true,
            Err(BuildError::MalformedTree) => false,
        },
    decreases node, node.children().len() - from,
{
    if from < node.children().len() {
        node.lemma_child_decreases(from);
        let child = node.children()[from];
        match node {
            Ast::Alternation(subs) => {
                let start = choose|start: u32|
                    b.stack == #[trigger] with_branches(base, start, end, subs@.len() - from);
                let before = with_branches(base, start, end, subs@.len() - from);
                let after = with_branches(base, start, end, subs@.len() - (from + 1));
                assert(before.len() > 0);
                assert(before.last() == Hole::Alternation { come_from: start, go_to: end });
                assert(before.drop_last() =~= after);
            },
            _ => {},
        }
        lemma_visit_stack(b, child);
        if b.visit(child) is Ok {
            let next = b.visit(child)->Ok_0;
            match node {
                Ast::Concat(_) => {
                    assert(next.stack.drop_last() =~= base);
                },
                _ => {},
            }
            lemma_visit_from_stack(next, node, from + 1, base, end);
        }
    } else {
        match node {
            Ast::Alternation(subs) => {
                let start = choose|start: u32|
                    b.stack == #[trigger] with_branches(base, start, end, subs@.len() - from);
                assert(with_branches(base, start, end, 0) =~= base);
            },
            _ => {},
        }
    }
}

/// What the visit of `node` leaves of the holes: the topmost hole is taken,
/// unless it is the hole of a concatenation, which stays. With a hole to
/// take, the visit fails for a lookaround assertion or for want of state
/// ids only.
pub proof fn lemma_visit_stack(b: BuilderModel, node: Ast)
    requires
        b.stack.len() > 0,
    ensures
        match b.visit(node) {
            Ok(r) => !node.has_look() && r.stack == b.stack_after_take(
                b.nfa.states.len() as u32,
            ),
            Err(BuildError::UnsupportedConstruct) => node.has_look(),
            Err(BuildError::TooManyStates) => true,
            Err(BuildError::MalformedTree) => false,
        },
    decreases node, node.children().len() + 1,
{
    if b.visit_pre(node) is Ok {
        let end = b.nfa.states.len() as u32;
        let start = (end + 1) as u32;
        let entered = b.visit_pre(node)->Ok_0;
        let base = b.stack_after_take(end);
        match node {
            Ast::Concat(_) => {
                assert(entered.stack.drop_last() =~= base);
            },
            Ast::Alternation(subs) => {
                assert(entered.stack == with_branches(base, start, end, subs@.len() - 0));
            },
            Ast::Repetition(_) => {
                assert(entered.stack.drop_last() =~= base);
            },
            Ast::Capture(_) => {
                assert(entered.stack.drop_last() =~= base);
            },
            _ => {},
        }
        lemma_visit_from_stack(entered, node, 0, base, end);
        if entered.visit_from(node, 0) is Ok {
            let done = entered.visit_from(node, 0)->Ok_0;
            match node {
                Ast::Concat(_) => {
                    assert(done.close_hole().stack == base);
                },
                _ => {},
            }
        }
    }
}

/// When a new builder succeeds: it never finds a malformed tree, it refuses
/// a lookaround assertion only where the tree holds one, and it builds an
/// automaton for every tree without one unless the state ids run out.
pub proof fn lemma_build_errors(re: Ast)
    ensures
        match (BuilderModel { nfa: NfaModel::empty(), stack: Seq::empty() }).build(re) {
            Ok(_) => !re.has_look(),
            Err(BuildError::UnsupportedConstruct) => re.has_look(),
            Err(BuildError::TooManyStates) => true,
            Err(BuildError::MalformedTree) => false,
        },
{
    let fresh = BuilderModel { nfa: NfaModel::empty(), stack: Seq::empty() };
    let end = 0u32;
    let start = 1u32;
    let seeded = BuilderModel {
        nfa: fresh.nfa.add_state(StateModel::Fail).with_accept(end).add_state(
            StateModel::Epsilon(Seq::empty()),
        ).with_start(start),
        stack: fresh.stack.push(Hole::Alternation { come_from: start, go_to: end }),
    };
    lemma_visit_stack(seeded, re);
}

} // verus!
