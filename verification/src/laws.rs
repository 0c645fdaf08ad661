//! What holds of the stages together: the automata of the later stages
//! accept the words that the automaton without epsilon moves accepts, a
//! second minimisation finds nothing to merge, and no stage adds states.
use crate::dense::{dense_of, DenseModel};
use crate::dfa::{has_bit, or_fold, DfaModel, ONE, ZERO};
use crate::moves::targets_with;
use crate::nfa::NfaModel;
use crate::quotient::quotient_of;
use vstd::prelude::*;

verus! {

/// `w` is a word of zeros and ones.
pub open spec fn binary_word(w: Seq<u8>) -> bool {
    forall|i: int| 0 <= i < w.len() ==> (#[trigger] w[i]) == ZERO || w[i] == ONE
}

impl NfaModel {
    /// Reading `w` can lead from state `p` to state `q` by symbol moves.
    pub open spec fn reads(self, p: u32, w: Seq<u8>, q: u32) -> bool
        decreases w.len(),
    {
        if w.len() == 0 {
            p == q
        } else {
            exists|r: u32| #[trigger] self.has_move(p, (w[0], r)) && self.reads(r, w.drop_first(), q)
        }
    }

    /// An automaton without epsilon moves accepts `w`: reading `w` can lead
    /// from the start state to the first accept state.
    pub open spec fn accepts_word(self, w: Seq<u8>) -> bool {
        self.start matches Some(s) && self.accept.len() > 0 && self.reads(s, w, self.accept[0])
    }
}

impl DfaModel {
    /// The state that reading the binary word `w` from state `id` leads
    /// to.
    pub open spec fn run(self, id: u128, w: Seq<u8>) -> u128
        decreases w.len(),
    {
        if w.len() == 0 {
            id
        } else {
            self.run(self.next(id, w[0]), w.drop_first())
        }
    }

    /// The automaton accepts the binary word `w`.
    pub open spec fn accepts_word(self, w: Seq<u8>) -> bool {
        self.start matches Some(s) && self.accept.contains(self.run(s, w))
    }
}

/// A set holds the states that it was made of.
pub proof fn lemma_or_fold_bits(ts: Seq<u32>, t: u32)
    requires
        forall|i: int| 0 <= i < ts.len() ==> (#[trigger] ts[i]) < 128,
        t < 128,
    ensures
        has_bit(or_fold(ts), t) == ts.contains(t),
    decreases ts.len(),
{
    if ts.len() == 0 {
        crate::dfa::lemma_bit_of_zero(t);
    } else {
        let front = ts.drop_last();
        lemma_or_fold_bits(front, t);
        crate::dfa::lemma_bit_of_or(or_fold(front), 1u128 << ts.last(), t);
        crate::dfa::lemma_bit_of_single(ts.last(), t);
        crate::graph::lemma_drop_last_contains(ts, t);
    }
}

/// The targets of the moves that read `a` are where a move that reads `a`
/// leads.
pub proof fn lemma_targets_with_contains(s: Seq<(u8, u32)>, a: u8, t: u32)
    ensures
        targets_with(s, a).contains(t) == s.contains((a, t)),
    decreases s.len(),
{
    if s.len() > 0 {
        let front = s.drop_last();
        lemma_targets_with_contains(front, a, t);
        crate::graph::lemma_drop_last_contains(s, (a, t));
        if s.last().0 == a {
            crate::graph::lemma_push_contains(targets_with(front, a), s.last().1, t);
        }
    }
}

/// The targets of the moves of a well-formed automaton are states.
pub proof fn lemma_targets_in_range(nfa: NfaModel, s: u32, a: u8)
    requires
        nfa.wf(),
        s < nfa.states.len(),
        nfa.states.len() <= 128,
    ensures
        forall|i: int|
            0 <= i < targets_with(nfa.states[s as int].moves(), a).len() ==> (
            #[trigger] targets_with(nfa.states[s as int].moves(), a)[i]) < 128,
{
    let moves = nfa.states[s as int].moves();
    let ts = targets_with(moves, a);
    assert forall|i: int| 0 <= i < ts.len() implies (#[trigger] ts[i]) < 128 by {
        crate::moves::lemma_targets_with_member(moves, a, i);
        let k = choose|k: int| 0 <= k < moves.len() && #[trigger] moves[k] == (a, ts[i]);
        assert(nfa.states[s as int].moves()[k].1 < nfa.states.len());
    }
}

impl NfaModel {
    /// The set that the sets below `upto` step to holds `t` if and only if
    /// a state below `upto` of the set has a move to `t`.
    pub proof fn lemma_step_upto_bits(self, id: u128, a: u8, upto: u32, t: u32)
        requires
            self.wf(),
            self.states.len() <= 128,
            upto <= 128,
            t < 128,
        ensures
            has_bit(self.step_upto(id, a, upto), t) == (exists|p: u32|
                p < upto && has_bit(id, p) && #[trigger] self.has_move(p, (a, t))),
        decreases upto,
    {
        if upto == 0 {
            crate::dfa::lemma_bit_of_zero(t);
        } else {
            let last = (upto - 1) as u32;
            let before = self.step_upto(id, a, last);
            let add = if has_bit(id, last) {
                self.symbol_mask(last, a)
            } else {
                0
            };
            self.lemma_step_upto_bits(id, a, last, t);
            crate::dfa::lemma_bit_of_or(before, add, t);
            crate::dfa::lemma_bit_of_zero(t);
            if last < self.states.len() {
                lemma_targets_in_range(self, last, a);
                lemma_or_fold_bits(targets_with(self.states[last as int].moves(), a), t);
                lemma_targets_with_contains(self.states[last as int].moves(), a, t);
            }
            if has_bit(self.step_upto(id, a, upto), t) {
                if has_bit(before, t) {
                    let p = choose|p: u32|
                        p < last && has_bit(id, p) && #[trigger] self.has_move(p, (a, t));
                    assert(p < upto && has_bit(id, p) && self.has_move(p, (a, t)));
                } else {
                    assert(last < upto && has_bit(id, last) && self.has_move(last, (a, t)));
                }
            }
            if exists|p: u32| p < upto && has_bit(id, p) && #[trigger] self.has_move(p, (a, t)) {
                let p = choose|p: u32|
                    p < upto && has_bit(id, p) && #[trigger] self.has_move(p, (a, t));
                if p < last {
                    assert(has_bit(before, t));
                }
            }
        }
    }

    /// The set that reading `w` leads the set `id` to holds `q` if and only
    /// if reading `w` can lead from a state of `id` to `q`.
    pub proof fn lemma_subset_run(self, id: u128, w: Seq<u8>, q: u32)
        requires
            self.wf(),
            self.states.len() <= 128,
            self.start is Some,
            self.start->Some_0 < 128,
            self.subset_reached(id),
            binary_word(w),
            q < 128,
        ensures
            self.subset_reached(self.subset_dfa().run(id, w)),
            has_bit(self.subset_dfa().run(id, w), q) == (exists|p: u32|
                p < 128 && has_bit(id, p) && #[trigger] self.reads(p, w, q)),
        decreases w.len(),
    {
        let m = self.subset_dfa();
        if w.len() == 0 {
            if has_bit(id, q) {
                assert(q < 128 && has_bit(id, q) && self.reads(q, w, q));
            }
        } else {
            let a = w[0];
            let rest = w.drop_first();
            let next = self.subset_step(id, a);
            assert(m.next(id, a) == next);
            assert(self.subset_edge()(id as int, next as int));
            crate::graph::lemma_reaches_step(
                self.subset_edge(),
                self.subset_start() as int,
                id as int,
                next as int,
            );
            assert forall|i: int| 0 <= i < rest.len() implies (#[trigger] rest[i]) == ZERO
                || rest[i] == ONE by {
                assert(rest[i] == w[i + 1]);
            }
            self.lemma_subset_run(next, rest, q);
            if has_bit(m.run(id, w), q) {
                let r = choose|r: u32| r < 128 && has_bit(next, r) && #[trigger] self.reads(r, rest, q);
                self.lemma_step_upto_bits(id, a, 128, r);
                let p = choose|p: u32|
                    p < 128 && has_bit(id, p) && #[trigger] self.has_move(p, (a, r));
                assert(self.has_move(p, (w[0], r)) && self.reads(r, w.drop_first(), q));
                assert(p < 128 && has_bit(id, p) && self.reads(p, w, q));
            }
            if exists|p: u32| p < 128 && has_bit(id, p) && #[trigger] self.reads(p, w, q) {
                let p = choose|p: u32| p < 128 && has_bit(id, p) && #[trigger] self.reads(p, w, q);
                let r = choose|r: u32| #[trigger]
                    self.has_move(p, (w[0], r)) && self.reads(r, w.drop_first(), q);
                let k = choose|k: int|
                    0 <= k < self.states[p as int].moves().len() && self.states[p as int].moves()[k]
                        == (a, r);
                assert(self.states[p as int].moves()[k].1 < self.states.len());
                self.lemma_step_upto_bits(id, a, 128, r);
                assert(p < 128 && has_bit(id, p) && self.has_move(p, (a, r)));
                assert(has_bit(next, r));
                assert(r < 128 && has_bit(next, r) && self.reads(r, rest, q));
            }
        }
    }

    /// The automaton of the subset construction accepts the binary words
    /// that the automaton without epsilon moves accepts.
    pub proof fn lemma_subset_language(self, w: Seq<u8>)
        requires
            self.ready_for_subsets(),
            self.states.len() <= 128,
            binary_word(w),
        ensures
            self.subset_dfa().accepts_word(w) == self.accepts_word(w),
    {
        let m = self.subset_dfa();
        let s0 = self.start->Some_0;
        let start = self.subset_start();
        let acc = self.accept[0];
        crate::graph::lemma_reaches_self(self.subset_edge(), start as int);
        self.lemma_subset_run(start, w, acc);
        let end = m.run(start, w);
        assert((end & (1u128 << acc) != 0) == has_bit(end, acc)) by {
            assert((end & (1u128 << acc) != 0) == ((end >> acc) & 1 == 1)) by (bit_vector)
                requires
                    acc < 128,
            ;
        }
        if has_bit(end, acc) {
            let p = choose|p: u32| p < 128 && has_bit(start, p) && #[trigger] self.reads(p, w, acc);
            crate::dfa::lemma_bit_of_single(s0, p);
        }
        if self.reads(s0, w, acc) {
            crate::dfa::lemma_bit_of_single(s0, s0);
            assert(s0 < 128 && has_bit(start, s0) && self.reads(s0, w, acc));
        }
    }
}

/// Two states of one place among the states are one state.
pub proof fn lemma_rank_injective(s: DfaModel, x: u128, y: u128)
    requires
        s.states.dom().finite(),
        s.states.contains_key(x),
        s.states.contains_key(y),
        s.rank(x) == s.rank(y),
    ensures
        x == y,
{
    let dom = s.states.dom();
    let below_x = dom.filter(|z: u128| z < x);
    let below_y = dom.filter(|z: u128| z < y);
    dom.lemma_len_filter(|z: u128| z < x);
    dom.lemma_len_filter(|z: u128| z < y);
    if x < y {
        assert(below_x.insert(x).subset_of(below_y));
        vstd::set_lib::lemma_len_subset(below_x.insert(x), below_y);
    } else if y < x {
        assert(below_y.insert(y).subset_of(below_x));
        vstd::set_lib::lemma_len_subset(below_y.insert(y), below_x);
    }
}

/// Reading a binary word in the dense automaton from the place of `x` leads
/// to the place of the state that the word leads to from `x`.
pub proof fn lemma_dense_run(s: DfaModel, d: DenseModel, x: u128, w: Seq<u8>)
    requires
        dense_of(s, d),
        s.closed(),
        s.alphabet == (ZERO, ONE),
        s.states.contains_key(x),
        binary_word(w),
    ensures
        s.states.contains_key(s.run(x, w)),
        d.run(s.rank(x) as u128, w) == s.rank(s.run(x, w)),
        d.word(w),
    decreases w.len(),
{
    assert(d.alphabet[0] == ZERO && d.alphabet[1] == ONE);
    assert forall|i: int| 0 <= i < w.len() implies d.alphabet.contains(#[trigger] w[i]) by {}
    if w.len() > 0 {
        let a = w[0];
        let rest = w.drop_first();
        let next = s.states[x];
        assert(s.states.contains_key(next.0) && s.states.contains_key(next.1));
        crate::dense::lemma_first_index(d.alphabet, ZERO, 0);
        crate::dense::lemma_first_index(d.alphabet, ONE, 1);
        assert(s.rank(x) < d.states);
        assert forall|i: int| 0 <= i < rest.len() implies (#[trigger] rest[i]) == ZERO || rest[i]
            == ONE by {
            assert(rest[i] == w[i + 1]);
        }
        assert(s.rank(s.next(x, a)) < d.states);
        lemma_dense_run(s, d, s.next(x, a), rest);
    }
}

/// The dense automaton accepts the binary words that the sparse one
/// accepts.
pub proof fn lemma_dense_language(s: DfaModel, d: DenseModel, w: Seq<u8>)
    requires
        dense_of(s, d),
        s.closed(),
        s.alphabet == (ZERO, ONE),
        s.states.dom().finite(),
        binary_word(w),
    ensures
        d.accepts(w) == s.accepts_word(w),
        d.word(w),
{
    let start = s.start->Some_0;
    lemma_dense_run(s, d, start, w);
    let end = s.run(start, w);
    assert(s.rank(start) < d.states);
    assert(s.rank(end) < d.states);
    if d.accept.contains(s.rank(end) as u128) {
        let x = choose|x: u128| s.accept.contains(x) && s.rank(x) == s.rank(end) as u128;
        lemma_rank_injective(s, x, end);
    }
}

/// From the automaton without epsilon moves on, every stage keeps the
/// language: the dense automaton of the subset construction, and its
/// quotient, accept the binary words that the automaton without epsilon
/// moves accepts.
pub proof fn lemma_acceptance_equivalence(
    plain: NfaModel,
    dense: DenseModel,
    minimal: DenseModel,
    w: Seq<u8>,
)
    requires
        plain.ready_for_subsets(),
        plain.states.len() <= 128,
        plain.subset_dfa().states.dom().finite(),
        dense_of(plain.subset_dfa(), dense),
        dense.closed(),
        minimal == dense || quotient_of(dense, minimal),
        binary_word(w),
    ensures
        minimal.accepts(w) == plain.accepts_word(w),
        dense.accepts(w) == plain.accepts_word(w),
{
    plain.lemma_subset_dfa_closed();
    plain.lemma_subset_language(w);
    lemma_dense_language(plain.subset_dfa(), dense, w);
    if minimal != dense {
        crate::quotient::lemma_quotient_language(dense, minimal, w);
    }
}

/// A second minimisation finds nothing to merge: in the quotient of an
/// automaton some word tells any two states apart.
pub proof fn lemma_minimize_is_idempotent(dense: DenseModel, minimal: DenseModel)
    requires
        dense.wf(),
        dense.closed(),
        quotient_of(dense, minimal),
    ensures
        minimal.minimal(),
        minimal.classes().len() == 0,
{
    crate::quotient::lemma_quotient_minimal(dense, minimal);
    minimal.lemma_minimal_iff();
}

/// No stage adds states: the minimal automaton has at most as many states
/// as the dense one, which has as many as the sparse one.
pub proof fn lemma_state_counts(sparse: DfaModel, dense: DenseModel, minimal: DenseModel)
    requires
        dense_of(sparse, dense),
        minimal == dense || quotient_of(dense, minimal),
    ensures
        minimal.states <= dense.states,
        dense.states == sparse.states.len(),
{
    if minimal != dense {
        crate::quotient::lemma_quotient_smaller(dense, minimal);
    }
}

/// The minimal automaton for a tree accepts the binary words that the
/// automaton without epsilon moves for the tree accepts, and it has no more
/// states than the automaton of the subset construction.
pub proof fn lemma_minimal_for(re: crate::ast::Ast, dfa: DenseModel, w: Seq<u8>)
    requires
        crate::minimal_for(re, dfa),
        binary_word(w),
    ensures
        exists|plain: NfaModel| #[trigger]
            crate::eliminated(crate::built(re)->Ok_0, plain) && dfa.accepts(w)
                == plain.accepts_word(w) && dfa.states <= plain.subset_dfa().states.len(),
{
    let (plain, dense) = choose|plain: NfaModel, dense: DenseModel| #[trigger]
        crate::dense_stage(re, plain, dense) && (if dense.minimal() {
            dfa == dense
        } else {
            quotient_of(dense, dfa)
        });
    lemma_acceptance_equivalence(plain, dense, dfa, w);
    lemma_state_counts(plain.subset_dfa(), dense, dfa);
    assert(crate::eliminated(crate::built(re)->Ok_0, plain));
}

/// Acceptance equivalence from the tree on: the minimal automaton accepts a
/// binary word if and only if the automaton with epsilon moves for the tree
/// does; but for the empty word where that automaton accepts it, which the
/// minimal automaton never does.
pub proof fn lemma_pipeline_language(
    re: crate::ast::Ast,
    image: NfaModel,
    dense: DenseModel,
    dfa: DenseModel,
    w: Seq<u8>,
)
    requires
        crate::built(re) is Ok,
        crate::built(re)->Ok_0.epsilon_free_image(image),
        crate::dense_stage(re, image.pruned().compacted(), dense),
        dfa == dense || quotient_of(dense, dfa),
        binary_word(w),
        w.len() > 0 || !crate::built(re)->Ok_0.accepts_with_epsilon(w),
    ensures
        dfa.accepts(w) == crate::built(re)->Ok_0.accepts_with_epsilon(w),
{
    let nfa = crate::built(re)->Ok_0;
    let plain = image.pruned().compacted();
    crate::builder::lemma_built_sound(re);
    let pruned = image.pruned();
    lemma_acceptance_equivalence(plain, dense, dfa, w);
    if w.len() > 0 {
        crate::epsilon::lemma_elimination_keeps_words(nfa, image, w);
    } else {
        assert(image.accept =~= seq![0u32]);
        assert(pruned.accept.drop_last() =~= Seq::<u32>::empty());
        assert(pruned.kept_ids(Seq::<u32>::empty()) =~= Seq::<u32>::empty());
        assert(pruned.kept_id(0) is Some);
        assert(pruned.live_below(0) == 0);
        assert(pruned.live_below(1) == pruned.live_below(0) + 1);
        assert(plain.start == Some(1u32) && plain.accept[0] == 0);
    }
}

} // verus!
