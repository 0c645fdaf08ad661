//! What the elimination of epsilon moves keeps: the words of one symbol or
//! more that the automaton accepts.
use crate::graph::{lemma_reaches_self, lemma_reaches_step, lemma_reaches_trans, reaches};
use crate::nfa::{NfaModel, StateModel};
use vstd::prelude::*;

verus! {

impl NfaModel {
    /// Reading `w` can lead from state `p` to state `q` by epsilon moves and
    /// symbol moves.
    pub open spec fn reads_with_epsilon(self, p: u32, w: Seq<u8>, q: u32) -> bool
        decreases w.len(),
    {
        if w.len() == 0 {
            self.closure(p).contains(q)
        } else {
            exists|r: u32, t: u32|
                self.closure(p).contains(r) && #[trigger] self.has_move(r, (w[0], t))
                    && self.reads_with_epsilon(t, w.drop_first(), q)
        }
    }

    /// An automaton with epsilon moves accepts `w`: reading `w` can lead
    /// from the start state to the first accept state.
    pub open spec fn accepts_with_epsilon(self, w: Seq<u8>) -> bool {
        self.start matches Some(s) && self.accept.len() > 0 && self.reads_with_epsilon(
            s,
            w,
            self.accept[0],
        )
    }

    /// Every state is in its own closure.
    pub proof fn lemma_closure_self(self, p: u32)
        ensures
            self.closure(p).contains(p),
    {
        lemma_reaches_self(self.eps_edge(), p as int);
    }

    /// The closure of a state in the closure of `p` lies in the closure of
    /// `p`.
    pub proof fn lemma_closure_trans(self, p: u32, q: u32, r: u32)
        requires
            self.closure(p).contains(q),
            self.closure(q).contains(r),
        ensures
            self.closure(p).contains(r),
    {
        lemma_reaches_trans(self.eps_edge(), p as int, q as int, r as int);
    }

    /// A state that has a symbol move is a state for symbol moves.
    pub proof fn lemma_move_kind(self, r: u32, m: (u8, u32))
        requires
            self.has_move(r, m),
        ensures
            r < self.states.len(),
            self.states[r as int] is NonEpsilon,
            !(self.states[r as int] is Epsilon),
    {
        let i = choose|i: int|
            0 <= i < self.states[r as int].moves().len() && self.states[r as int].moves()[i] == m;
    }

    /// From a state from which a word of one symbol or more can be read to
    /// `q`, some move is left once epsilon moves are eliminated.
    pub proof fn lemma_reading_state_is_live(self, p: u32, w: Seq<u8>, q: u32)
        requires
            self.wf(),
            p < self.states.len(),
            q < self.states.len(),
            !(self.states[q as int] is Epsilon),
            w.len() > 0,
            self.reads_with_epsilon(p, w, q),
        ensures
            !self.hat_empty(p),
    {
        let (r, t) = choose|r: u32, t: u32|
            self.closure(p).contains(r) && #[trigger] self.has_move(r, (w[0], t))
                && self.reads_with_epsilon(t, w.drop_first(), q);
        let land = self.lemma_lands(t, w.drop_first(), q);
        assert(self.delta(p).contains((w[0], t)));
        assert(self.delta_hat(p).contains((w[0], land)));
    }

    /// From a state from which a word can be read to `q`, epsilon moves
    /// lead to a state that takes none: to `q` for the empty word, and else
    /// to a state from which the word can be read to `q`.
    pub proof fn lemma_lands(self, t: u32, w: Seq<u8>, q: u32) -> (land: u32)
        requires
            self.wf(),
            q < self.states.len(),
            !(self.states[q as int] is Epsilon),
            self.reads_with_epsilon(t, w, q),
            t < self.states.len(),
        ensures
            self.landing(t).contains(land),
            self.reads_with_epsilon(land, w, q),
            w.len() == 0 ==> land == q,
    {
        if w.len() == 0 {
            self.lemma_closure_self(q);
            q
        } else {
            let (r, u) = choose|r: u32, u: u32|
                self.closure(t).contains(r) && #[trigger] self.has_move(r, (w[0], u))
                    && self.reads_with_epsilon(u, w.drop_first(), q);
            self.lemma_move_kind(r, (w[0], u));
            self.lemma_closure_self(r);
            assert(self.closure(r).contains(r) && self.has_move(r, (w[0], u))
                && self.reads_with_epsilon(u, w.drop_first(), q));
            r
        }
    }
}

/// The image of an automaton, state by state, reads the words of one symbol
/// or more to a state without epsilon moves whose closure accepts that the
/// automaton reads to it.
pub proof fn lemma_image_reads(nfa: NfaModel, image: NfaModel, p: u32, w: Seq<u8>, q: u32)
    requires
        nfa.wf(),
        nfa.epsilon_free_image(image),
        p < nfa.states.len(),
        q < nfa.states.len(),
        !(nfa.states[q as int] is Epsilon),
        nfa.accept.contains(q),
        w.len() > 0,
    ensures
        image.reads(p, w, q) == nfa.reads_with_epsilon(p, w, q),
    decreases w.len(),
{
    let a = w[0];
    let rest = w.drop_first();
    nfa.lemma_closure_self(q);
    assert(nfa.accepting_closure(q));
    if nfa.reads_with_epsilon(p, w, q) {
        let (r, t) = choose|r: u32, t: u32|
            nfa.closure(p).contains(r) && #[trigger] nfa.has_move(r, (a, t))
                && nfa.reads_with_epsilon(t, rest, q);
        let k = choose|k: int|
            0 <= k < nfa.states[r as int].moves().len() && nfa.states[r as int].moves()[k] == (a, t);
        assert(nfa.states[r as int].moves()[k].1 < nfa.states.len());
        let land = nfa.lemma_lands(t, rest, q);
        assert(nfa.delta(p).contains((a, t)));
        assert(nfa.delta_hat(p).contains((a, land)));
        if rest.len() > 0 {
            nfa.lemma_reading_state_is_live(land, rest, q);
            lemma_image_reads(nfa, image, land, rest, q);
        }
        assert(!nfa.hat_fail(land));
        assert(nfa.hat_moves(p).contains((a, land)));
        lemma_image_move(nfa, image, p, (a, land));
        assert(image.has_move(p, (w[0], land)) && image.reads(land, w.drop_first(), q));
    }
    if image.reads(p, w, q) {
        let u = choose|u: u32| #[trigger] image.has_move(p, (w[0], u)) && image.reads(u, rest, q);
        lemma_image_move(nfa, image, p, (a, u));
        let t = choose|t: u32| nfa.delta(p).contains((a, t)) && nfa.landing(t).contains(u);
        let r = choose|r: u32| nfa.closure(p).contains(r) && nfa.has_move(r, (a, t));
        if rest.len() > 0 {
            lemma_image_reads(nfa, image, u, rest, q);
            let (r2, t2) = choose|r2: u32, t2: u32|
                nfa.closure(u).contains(r2) && #[trigger] nfa.has_move(r2, (rest[0], t2))
                    && nfa.reads_with_epsilon(t2, rest.drop_first(), q);
            nfa.lemma_closure_trans(t, u, r2);
            assert(nfa.closure(t).contains(r2) && nfa.has_move(r2, (rest[0], t2))
                && nfa.reads_with_epsilon(t2, rest.drop_first(), q));
        }
        assert(nfa.closure(p).contains(r) && nfa.has_move(r, (w[0], t)) && nfa.reads_with_epsilon(
            t,
            w.drop_first(),
            q,
        ));
    }
}

/// The moves of a state of the image are its kept moves.
pub proof fn lemma_image_move(nfa: NfaModel, image: NfaModel, p: u32, m: (u8, u32))
    requires
        nfa.epsilon_free_image(image),
        p < nfa.states.len(),
    ensures
        image.has_move(p, m) == nfa.hat_moves(p).contains(m),
{
    match image.states[p as int] {
        StateModel::NonEpsilon(ts) => {
            assert(ts.to_set().contains(m) == ts.contains(m));
        },
        _ => {
            assert(image.states[p as int].moves().len() == 0);
            if nfa.hat_moves(p).contains(m) {
                assert(nfa.delta_hat(p).contains(m));
            }
        },
    }
}

/// The image of a well-formed automaton is well formed.
pub proof fn lemma_image_wf(nfa: NfaModel, image: NfaModel)
    requires
        nfa.wf(),
        nfa.epsilon_free_image(image),
    ensures
        image.wf(),
{
    assert forall|s: int, k: int|
        0 <= s < image.states.len() && 0 <= k < image.states[s].moves().len() implies (
    #[trigger] image.states[s].moves()[k]).1 < image.states.len() && image.alphabet.contains(
        image.states[s].moves()[k].0,
    ) by {
        let m = image.states[s].moves()[k];
        assert(image.states[(s as u32) as int] is NonEpsilon);
        assert(image.states[s].moves().to_set().contains(m));
        assert(nfa.hat_moves(s as u32).contains(m));
        let t = choose|t: u32| nfa.delta(s as u32).contains((m.0, t)) && nfa.landing(t).contains(m.1);
    }
    assert forall|s: int, k: int|
        0 <= s < image.states.len() && 0 <= k < image.states[s].eps_targets().len() implies (
    #[trigger] image.states[s].eps_targets()[k]) < image.states.len() by {
        assert(!(image.states[(s as u32) as int] is Epsilon));
    }
}

/// The pruned image of a well-formed automaton is well formed, and no move
/// of it leads to a rejecting state without a way out.
pub proof fn lemma_pruned_wf(nfa: NfaModel, image: NfaModel)
    requires
        nfa.wf(),
        nfa.epsilon_free_image(image),
        image.start is Some,
    ensures
        image.pruned().wf(),
        image.pruned().no_move_into_fail(),
{
    let pruned = image.pruned();
    lemma_image_wf(nfa, image);
    assert forall|s: int, k: int|
        0 <= s < pruned.states.len() && 0 <= k < pruned.states[s].moves().len() implies (
    #[trigger] pruned.states[s].moves()[k]).1 < pruned.states.len() && pruned.alphabet.contains(
        pruned.states[s].moves()[k].0,
    ) by {
        assert(pruned.states[s] == image.states[s]);
        assert(image.states[s].moves()[k].1 < image.states.len());
    }
    assert forall|s: int, k: int|
        0 <= s < pruned.states.len() && 0 <= k < pruned.states[s].eps_targets().len() implies (
    #[trigger] pruned.states[s].eps_targets()[k]) < pruned.states.len() by {
        assert(pruned.states[s] == image.states[s]);
        assert(image.states[s].eps_targets()[k] < image.states.len());
    }
    assert forall|s: int, k: int|
        0 <= s < pruned.states.len() && 0 <= k < pruned.states[s].moves().len() implies !(
    pruned.states[(#[trigger] pruned.states[s].moves()[k]).1 as int] is Fail) by {
        assert(pruned.states[s] == image.states[s]);
        assert(image.reachable(s as u32));
        let m = image.states[s].moves()[k];
        assert(m.1 < image.states.len());
        let s0 = image.start->Some_0;
        assert(image.move_edge()(s, m.1 as int));
        lemma_reaches_step(image.move_edge(), s0 as int, s, m.1 as int);
        assert(image.reachable(m.1));
        assert(pruned.states[m.1 as int] == image.states[m.1 as int]);
        assert(image.states[(s as u32) as int] is NonEpsilon);
        assert(image.states[s].moves().to_set().contains(m));
        assert(nfa.hat_moves(s as u32).contains(m));
        assert(!nfa.hat_fail(m.1));
        assert(!(image.states[m.1 as int] is Fail));
    }
}

/// From a state that the start state reaches, the pruned automaton reads
/// what the automaton reads.
pub proof fn lemma_pruned_reads(image: NfaModel, p: u32, w: Seq<u8>, q: u32)
    requires
        image.wf(),
        image.reachable(p),
        p < image.states.len(),
    ensures
        image.pruned().reads(p, w, q) == image.reads(p, w, q),
    decreases w.len(),
{
    let pruned = image.pruned();
    assert(pruned.states[p as int] == image.states[p as int]);
    if w.len() > 0 {
        let rest = w.drop_first();
        let s0 = image.start->Some_0;
        assert forall|u: u32| image.has_move(p, (w[0], u)) implies pruned.reads(u, rest, q)
            == image.reads(u, rest, q) by {
            let k = choose|k: int|
                0 <= k < image.states[p as int].moves().len() && image.states[p as int].moves()[k]
                    == (w[0], u);
            assert(image.states[p as int].moves()[k].1 < image.states.len());
            assert(image.move_edge()(p as int, u as int));
            lemma_reaches_step(image.move_edge(), s0 as int, p as int, u as int);
            lemma_pruned_reads(image, u, rest, q);
        }
        if pruned.reads(p, w, q) {
            let u = choose|u: u32| #[trigger] pruned.has_move(p, (w[0], u)) && pruned.reads(u, rest, q);
            assert(image.has_move(p, (w[0], u)) && image.reads(u, rest, q));
        }
        if image.reads(p, w, q) {
            let u = choose|u: u32| #[trigger] image.has_move(p, (w[0], u)) && image.reads(u, rest, q);
            assert(pruned.has_move(p, (w[0], u)) && pruned.reads(u, rest, q));
        }
    }
}

impl NfaModel {
    /// The new numbers go up with the states, and strictly past a state that
    /// is kept.
    pub proof fn lemma_live_below(self, a: int, b: int)
        requires
            0 <= a <= b,
        ensures
            self.live_below(a) <= self.live_below(b),
            self.live_below(a) <= a,
            a < b && !(self.states[a] is Fail) ==> self.live_below(a) < self.live_below(b),
        decreases b,
    {
        if a < b {
            self.lemma_live_below(a, b - 1);
        } else if a > 0 {
            self.lemma_live_below(a - 1, a - 1);
        }
    }

    /// The kept states below `k` stand at their new numbers, renumbered.
    pub proof fn lemma_compacted_at(self, k: int, i: int)
        requires
            0 <= i < k,
            !(self.states[i] is Fail),
        ensures
            self.compacted_upto(k).len() == self.live_below(k),
            self.live_below(i) < self.compacted_upto(k).len(),
            self.compacted_upto(k)[self.live_below(i) as int] == self.renumbered(self.states[i]),
        decreases k,
    {
        self.lemma_compacted_len(k);
        self.lemma_live_below(i, k);
        if i < k - 1 {
            self.lemma_compacted_at(k - 1, i);
        } else {
            self.lemma_compacted_len(k - 1);
        }
    }

    /// As many states are kept below `k` as the new number of `k` says.
    pub proof fn lemma_compacted_len(self, k: int)
        ensures
            self.compacted_upto(k).len() == self.live_below(k),
        decreases k,
    {
        if k > 0 {
            self.lemma_compacted_len(k - 1);
        }
    }

    /// The moves of a kept state in the compacted automaton are its moves
    /// with their targets renumbered.
    pub proof fn lemma_compacted_move(self, p: u32, m: (u8, u32))
        requires
            self.wf(),
            p < self.states.len(),
            !(self.states[p as int] is Fail),
        ensures
            self.compacted().has_move(self.live_below(p as int) as u32, m) == (exists|t: u32| #[trigger]
                self.has_move(p, (m.0, t)) && self.live_below(t as int) == m.1),
    {
        let n = self.states.len() as int;
        let c = self.compacted();
        self.lemma_compacted_at(n, p as int);
        self.lemma_live_below(p as int, n);
        let new_p = self.live_below(p as int) as u32;
        let old_moves = self.states[p as int].moves();
        let new_moves = c.states[new_p as int].moves();
        assert(c.states[new_p as int] == self.renumbered(self.states[p as int]));
        assert(new_moves =~= old_moves.map_values(
            |x: (u8, u32)| (x.0, self.live_below(x.1 as int) as u32),
        )) by {
            match self.states[p as int] {
                StateModel::NonEpsilon(ts) => {},
                _ => {},
            }
        }
        if c.has_move(new_p, m) {
            let i = choose|i: int| 0 <= i < new_moves.len() && new_moves[i] == m;
            let t = old_moves[i].1;
            assert(self.states[p as int].moves()[i].1 < self.states.len());
            self.lemma_live_below(t as int, n);
            assert(old_moves.contains((m.0, t)));
            assert(self.has_move(p, (m.0, t)) && self.live_below(t as int) == m.1);
        }
        if exists|t: u32| #[trigger] self.has_move(p, (m.0, t)) && self.live_below(t as int) == m.1 {
            let t = choose|t: u32| #[trigger]
                self.has_move(p, (m.0, t)) && self.live_below(t as int) == m.1;
            let i = choose|i: int| 0 <= i < old_moves.len() && old_moves[i] == (m.0, t);
            assert(new_moves[i] == m);
            assert(new_moves.contains(m));
        }
    }

    /// Between kept states, the compacted automaton reads under the new
    /// numbers what the automaton reads.
    pub proof fn lemma_compacted_reads(self, p: u32, w: Seq<u8>, q: u32)
        requires
            self.wf(),
            self.no_move_into_fail(),
            p < self.states.len(),
            q < self.states.len(),
            !(self.states[p as int] is Fail),
            !(self.states[q as int] is Fail),
        ensures
            self.compacted().reads(
                self.live_below(p as int) as u32,
                w,
                self.live_below(q as int) as u32,
            ) == self.reads(p, w, q),
        decreases w.len(),
    {
        let n = self.states.len() as int;
        let c = self.compacted();
        let new_p = self.live_below(p as int) as u32;
        let new_q = self.live_below(q as int) as u32;
        self.lemma_live_below(p as int, n);
        self.lemma_live_below(q as int, n);
        if w.len() == 0 {
            if p < q {
                self.lemma_live_below(p as int, q as int);
            } else if q < p {
                self.lemma_live_below(q as int, p as int);
            }
        } else {
            let rest = w.drop_first();
            if c.reads(new_p, w, new_q) {
                let u = choose|u: u32| #[trigger] c.has_move(new_p, (w[0], u)) && c.reads(u, rest, new_q);
                self.lemma_compacted_move(p, (w[0], u));
                let t = choose|t: u32| #[trigger]
                    self.has_move(p, (w[0], t)) && self.live_below(t as int) == u;
                self.lemma_move_target(p, (w[0], t));
                self.lemma_compacted_reads(t, rest, q);
                assert(self.has_move(p, (w[0], t)) && self.reads(t, rest, q));
            }
            if self.reads(p, w, q) {
                let t = choose|t: u32| #[trigger] self.has_move(p, (w[0], t)) && self.reads(t, rest, q);
                self.lemma_move_target(p, (w[0], t));
                self.lemma_live_below(t as int, n);
                let u = self.live_below(t as int) as u32;
                self.lemma_compacted_move(p, (w[0], u));
                self.lemma_compacted_reads(t, rest, q);
                let m = (w[0], u);
                assert(self.has_move(p, (m.0, t)) && self.live_below(t as int) == m.1);
                assert(c.has_move(new_p, m));
                assert(c.reads(u, rest, new_q));
                assert(c.has_move(new_p, (w[0], u)) && c.reads(u, rest, new_q));
            }
        }
    }

    /// A move leads to a kept state, where no move leads to a dropped one.
    pub proof fn lemma_move_target(self, p: u32, m: (u8, u32))
        requires
            self.wf(),
            self.no_move_into_fail(),
            self.has_move(p, m),
        ensures
            m.1 < self.states.len(),
            !(self.states[m.1 as int] is Fail),
    {
        let i = choose|i: int|
            0 <= i < self.states[p as int].moves().len() && self.states[p as int].moves()[i] == m;
        assert(self.states[p as int].moves()[i].1 < self.states.len());
        assert(!(self.states[self.states[p as int].moves()[i].1 as int] is Fail));
    }
}

/// A word of one symbol or more is read to a kept state only, where no
/// move leads to a dropped one.
pub proof fn lemma_reads_to_kept(m: NfaModel, p: u32, w: Seq<u8>, q: u32)
    requires
        m.wf(),
        m.no_move_into_fail(),
        w.len() > 0,
        m.reads(p, w, q),
    ensures
        q < m.states.len(),
        !(m.states[q as int] is Fail),
    decreases w.len(),
{
    let u = choose|u: u32| #[trigger] m.has_move(p, (w[0], u)) && m.reads(u, w.drop_first(), q);
    m.lemma_move_target(p, (w[0], u));
    if w.len() > 1 {
        lemma_reads_to_kept(m, u, w.drop_first(), q);
    }
}

/// The elimination of epsilon moves keeps the words of one symbol or more:
/// where the first accept state takes no epsilon moves, the automaton
/// without epsilon moves accepts such a word if and only if the automaton
/// with epsilon moves does.
pub proof fn lemma_elimination_keeps_words(nfa: NfaModel, image: NfaModel, w: Seq<u8>)
    requires
        nfa.wf(),
        nfa.start matches Some(s0) && s0 < nfa.states.len(),
        nfa.accept.len() > 0,
        nfa.accept[0] < nfa.states.len(),
        !(nfa.states[nfa.accept[0] as int] is Epsilon),
        nfa.epsilon_free_image(image),
        w.len() > 0,
    ensures
        image.pruned().compacted().accepts_word(w) == nfa.accepts_with_epsilon(w),
{
    let s0 = nfa.start->Some_0;
    let a0 = nfa.accept[0];
    let pruned = image.pruned();
    let plain = pruned.compacted();
    assert(nfa.accept.contains(a0));
    assert(image.accept =~= seq![a0]);
    assert(pruned.accept.drop_last() =~= Seq::<u32>::empty());
    assert(pruned.kept_ids(Seq::<u32>::empty()) =~= Seq::<u32>::empty());
    lemma_image_wf(nfa, image);
    lemma_pruned_wf(nfa, image);
    lemma_image_reads(nfa, image, s0, w, a0);
    lemma_reaches_self(image.move_edge(), s0 as int);
    lemma_pruned_reads(image, s0, w, a0);
    assert(pruned.states[s0 as int] == image.states[s0 as int]);
    if pruned.states[s0 as int] is Fail {
        assert(pruned.states[s0 as int].moves().len() == 0);
        if pruned.reads(s0, w, a0) {
            let u = choose|u: u32| #[trigger]
                pruned.has_move(s0, (w[0], u)) && pruned.reads(u, w.drop_first(), a0);
        }
    } else if pruned.states[a0 as int] is Fail {
        if pruned.reads(s0, w, a0) {
            lemma_reads_to_kept(pruned, s0, w, a0);
        }
    } else {
        pruned.lemma_live_below(s0 as int, pruned.states.len() as int);
        pruned.lemma_live_below(a0 as int, pruned.states.len() as int);
        pruned.lemma_compacted_reads(s0, w, a0);
    }
}

/// The shape of the automaton without epsilon moves that the elimination
/// gives: no state of it takes epsilon moves or is a rejecting state without
/// a way out, its start state and its accept states are states, and its
/// start state reaches every state.
pub proof fn lemma_eliminated_shape(nfa: NfaModel, image: NfaModel)
    requires
        nfa.wf(),
        nfa.start matches Some(s0) && s0 < nfa.states.len(),
        nfa.epsilon_free_image(image),
    ensures
        ({
            let plain = image.pruned().compacted();
            &&& forall|j: int|
                0 <= j < plain.states.len() ==> !(#[trigger] plain.states[j] is Fail)
                    && !(plain.states[j] is Epsilon)
            &&& plain.start == image.pruned().kept_id(nfa.start->Some_0)
            &&& plain.start matches Some(s) ==> s < plain.states.len()
            &&& forall|k: int| 0 <= k < plain.accept.len() ==> (#[trigger] plain.accept[k])
                < plain.states.len()
            &&& forall|j: u32| j < plain.states.len() ==> #[trigger] plain.reachable(j)
            &&& plain.start is None ==> plain.states.len() == 0
        }),
{
    let s0 = nfa.start->Some_0;
    let pruned = image.pruned();
    let plain = pruned.compacted();
    let n = pruned.states.len() as int;
    lemma_image_wf(nfa, image);
    lemma_pruned_wf(nfa, image);
    pruned.lemma_compacted_len(n);
    assert forall|j: int| 0 <= j < plain.states.len() implies !(#[trigger] plain.states[j] is Fail)
        && !(plain.states[j] is Epsilon) by {
        let i = pruned.lemma_compacted_from(n, j);
        assert(!(image.states[(i as u32) as int] is Epsilon));
    }
    pruned.lemma_live_below(s0 as int, n);
    pruned.lemma_kept_ids_range(pruned.accept);
    lemma_reaches_self(image.move_edge(), s0 as int);
    assert(pruned.states[s0 as int] == image.states[s0 as int]);
    let edge = image.move_edge();
    if pruned.states[s0 as int] is Fail {
        let only = Set::new(|x: int| x == s0);
        assert(crate::graph::closed_under(edge, only)) by {
            assert forall|a: int, b: int| only.contains(a) && #[trigger] edge(
                a,
                b,
            ) implies only.contains(b) by {
                assert(image.states[a].moves().len() == 0);
            }
        }
        if plain.states.len() > 0 {
            let i = pruned.lemma_compacted_from(n, 0);
            assert(image.reachable(i as u32));
            crate::graph::lemma_closed_holds_reachable(edge, only, s0 as int, i);
        }
    } else {
        let new_start = pruned.live_below(s0 as int) as u32;
        let new_edge = plain.move_edge();
        lemma_reaches_self(new_edge, new_start as int);
        let held = Set::new(
            |x: int|
                0 <= x < n && image.reachable(x as u32) && (!(pruned.states[x] is Fail)
                    ==> plain.reachable(pruned.live_below(x) as u32)),
        );
        assert(held.contains(s0 as int));
        assert(crate::graph::closed_under(edge, held)) by {
            assert forall|a: int, b: int| held.contains(a) && #[trigger] edge(
                a,
                b,
            ) implies held.contains(b) by {
                let k = choose|k: int|
                    0 <= k < image.states[a].moves().len() && (
                    #[trigger] image.states[a].moves()[k]).1 == b;
                let m = image.states[a].moves()[k];
                assert(m.1 < image.states.len());
                lemma_reaches_step(edge, s0 as int, a, b);
                assert(pruned.states[a] == image.states[a]);
                if !(pruned.states[b] is Fail) {
                    assert(image.states[a].moves().contains(m));
                    assert(pruned.has_move(a as u32, (m.0, m.1)));
                    pruned.lemma_live_below(a, n);
                    pruned.lemma_live_below(b, n);
                    let new_a = pruned.live_below(a) as u32;
                    let new_b = pruned.live_below(b) as u32;
                    let moved = (m.0, new_b);
                    pruned.lemma_compacted_move(a as u32, moved);
                    assert(pruned.has_move(a as u32, (moved.0, m.1)) && pruned.live_below(
                        m.1 as int,
                    ) == moved.1);
                    assert(plain.has_move(new_a, (m.0, new_b)));
                    let i = choose|i: int|
                        0 <= i < plain.states[new_a as int].moves().len()
                            && plain.states[new_a as int].moves()[i] == (m.0, new_b);
                    assert(plain.states[new_a as int].moves()[i].1 == new_b);
                    assert(new_edge(new_a as int, new_b as int));
                    lemma_reaches_step(new_edge, new_start as int, new_a as int, new_b as int);
                }
            }
        }
        assert forall|j: u32| j < plain.states.len() implies #[trigger] plain.reachable(j) by {
            let i = pruned.lemma_compacted_from(n, j as int);
            assert(image.reachable(i as u32));
            crate::graph::lemma_closed_holds_reachable(edge, held, s0 as int, i);
        }
    }
}

impl NfaModel {
    /// The new numbers of kept states are states of the compacted
    /// automaton.
    pub proof fn lemma_kept_ids_range(self, ids: Seq<u32>)
        ensures
            forall|k: int|
                0 <= k < self.kept_ids(ids).len() ==> (#[trigger] self.kept_ids(ids)[k])
                    < self.compacted().states.len(),
        decreases ids.len(),
    {
        let n = self.states.len() as int;
        self.lemma_compacted_len(n);
        if ids.len() > 0 {
            let front = self.kept_ids(ids.drop_last());
            self.lemma_kept_ids_range(ids.drop_last());
            if self.kept_id(ids.last()) is Some {
                self.lemma_live_below(ids.last() as int, n);
            }
            assert forall|k: int| 0 <= k < self.kept_ids(ids).len() implies (
            #[trigger] self.kept_ids(ids)[k]) < self.compacted().states.len() by {
                if k < front.len() {
                    assert(self.kept_ids(ids)[k] == front[k]);
                }
            }
        }
    }
}

impl NfaModel {
    /// Each state of the compacted automaton is a kept state, renumbered.
    pub proof fn lemma_compacted_from(self, k: int, j: int) -> (i: int)
        requires
            0 <= j < self.compacted_upto(k).len(),
        ensures
            0 <= i < k,
            !(self.states[i] is Fail),
            self.live_below(i) == j,
            self.compacted_upto(k)[j] == self.renumbered(self.states[i]),
        decreases k,
    {
        self.lemma_compacted_len(k);
        self.lemma_compacted_len(k - 1);
        if !(self.states[k - 1] is Fail) && j == self.compacted_upto(k - 1).len() {
            k - 1
        } else {
            self.lemma_compacted_from(k - 1, j)
        }
    }

    /// The compacted automaton is well formed, where no move leads to a
    /// dropped state and no state takes epsilon moves.
    pub proof fn lemma_compacted_wf(self)
        requires
            self.wf(),
            self.no_move_into_fail(),
            forall|i: int| 0 <= i < self.states.len() ==> !(#[trigger] self.states[i] is Epsilon),
        ensures
            self.compacted().wf(),
    {
        let n = self.states.len() as int;
        let c = self.compacted();
        self.lemma_compacted_len(n);
        self.lemma_live_below(n, n);
        assert forall|s: int, k: int|
            0 <= s < c.states.len() && 0 <= k < c.states[s].moves().len() implies (
        #[trigger] c.states[s].moves()[k]).1 < c.states.len() && c.alphabet.contains(
            c.states[s].moves()[k].0,
        ) by {
            let i = self.lemma_compacted_from(n, s);
            let old_moves = self.states[i].moves();
            match self.states[i] {
                StateModel::NonEpsilon(ts) => {
                    let m = old_moves[k];
                    assert(self.states[i].moves()[k].1 < self.states.len());
                    assert(!(self.states[self.states[i].moves()[k].1 as int] is Fail));
                    self.lemma_live_below(m.1 as int, n);
                },
                _ => {},
            }
        }
        assert forall|s: int, k: int|
            0 <= s < c.states.len() && 0 <= k < c.states[s].eps_targets().len() implies (
        #[trigger] c.states[s].eps_targets()[k]) < c.states.len() by {
            let i = self.lemma_compacted_from(n, s);
            assert(!(self.states[i] is Epsilon));
        }
    }
}

/// The automaton without epsilon moves that the elimination gives is well
/// formed.
pub proof fn lemma_eliminated_wf(nfa: NfaModel, image: NfaModel)
    requires
        nfa.wf(),
        nfa.epsilon_free_image(image),
        image.start is Some,
    ensures
        image.pruned().compacted().wf(),
{
    lemma_pruned_wf(nfa, image);
    let pruned = image.pruned();
    assert forall|i: int| 0 <= i < pruned.states.len() implies !(#[trigger] pruned.states[i]
        is Epsilon) by {
        assert(!(image.states[(i as u32) as int] is Epsilon));
    }
    pruned.lemma_compacted_wf();
}

impl NfaModel {
    /// A state that takes no epsilon moves has itself as closure.
    pub proof fn lemma_closure_of_plain(self, p: u32, q: u32)
        requires
            p < self.states.len(),
            !(self.states[p as int] is Epsilon),
            self.closure(p).contains(q),
        ensures
            q == p,
    {
        let edge = self.eps_edge();
        let held = Set::new(|x: int| x == p);
        assert(crate::graph::closed_under(edge, held)) by {
            assert forall|a: int, b: int| held.contains(a) && #[trigger] edge(
                a,
                b,
            ) implies held.contains(b) by {
                assert(self.states[a].eps_targets().len() == 0);
            }
        }
        crate::graph::lemma_closed_holds_reachable(edge, held, p as int, q as int);
    }

    /// The start state is an accepting state without a way out.
    pub open spec fn starts_final(self) -> bool {
        self.start matches Some(s) && s < self.states.len() && self.states[s as int] is Final
    }
}

/// Where the elimination of epsilon moves keeps the empty word: the start
/// state of the automaton without epsilon moves is an accepting state
/// without a way out if and only if the closure of the old start state holds
/// an accept state and no move is left for it; a start state with moves is no
/// such state, whatever its closure holds.
pub proof fn lemma_elimination_empty_word(nfa: NfaModel, image: NfaModel)
    requires
        nfa.wf(),
        nfa.start matches Some(s0) && s0 < nfa.states.len(),
        nfa.epsilon_free_image(image),
    ensures
        image.pruned().compacted().starts_final() == (nfa.accepting_closure(nfa.start->Some_0)
            && nfa.hat_empty(nfa.start->Some_0)),
{
    let s0 = nfa.start->Some_0;
    let pruned = image.pruned();
    let plain = pruned.compacted();
    let n = pruned.states.len() as int;
    lemma_reaches_self(image.move_edge(), s0 as int);
    assert(pruned.states[s0 as int] == image.states[s0 as int]);
    lemma_eliminated_shape(nfa, image);
    pruned.lemma_live_below(s0 as int, n);
    let kind = image.states[s0 as int];
    match kind {
        StateModel::Fail => {
            assert(nfa.hat_fail(s0));
            assert(plain.start is None);
        },
        StateModel::Final => {
            pruned.lemma_compacted_at(n, s0 as int);
            let new_start = pruned.live_below(s0 as int) as u32;
            assert(plain.start == Some(new_start));
            assert(plain.states[new_start as int] == pruned.renumbered(kind));
        },
        StateModel::NonEpsilon(ts) => {
            pruned.lemma_compacted_at(n, s0 as int);
            let new_start = pruned.live_below(s0 as int) as u32;
            assert(plain.start == Some(new_start));
            assert(plain.states[new_start as int] == pruned.renumbered(kind));
            assert(!nfa.hat_empty(s0));
        },
        StateModel::Epsilon(_) => {},
    }
}

/// The first accept state of the automaton without epsilon moves, where one
/// is left, is an accepting state without a way out, if the old first accept
/// state had no moves of either kind.
pub proof fn lemma_accept_is_final(nfa: NfaModel, image: NfaModel)
    requires
        nfa.wf(),
        nfa.start matches Some(s0) && s0 < nfa.states.len(),
        nfa.accept.len() > 0,
        nfa.accept[0] < nfa.states.len(),
        nfa.states[nfa.accept[0] as int] is Fail || nfa.states[nfa.accept[0] as int] is Final,
        nfa.epsilon_free_image(image),
    ensures
        ({
            let plain = image.pruned().compacted();
            plain.accept.len() > 0 ==> plain.states[plain.accept[0] as int] is Final
        }),
{
    let a0 = nfa.accept[0];
    let pruned = image.pruned();
    let plain = pruned.compacted();
    let n = pruned.states.len() as int;
    assert(image.accept =~= seq![a0]);
    assert(pruned.accept.drop_last() =~= Seq::<u32>::empty());
    assert(pruned.kept_ids(Seq::<u32>::empty()) =~= Seq::<u32>::empty());
    nfa.lemma_closure_self(a0);
    assert(nfa.accept.contains(a0));
    assert(nfa.accepting_closure(a0));
    assert forall|m: (u8, u32)| !nfa.delta(a0).contains(m) by {
        if nfa.delta(a0).contains(m) {
            let q = choose|q: u32| nfa.closure(a0).contains(q) && nfa.has_move(q, m);
            nfa.lemma_closure_of_plain(a0, q);
            assert(nfa.states[a0 as int].moves().len() == 0);
        }
    }
    let hat = nfa.delta_hat(a0);
    assert forall|m: (u8, u32)| !(#[trigger] hat.contains(m)) by {
        if hat.contains(m) {
            let t = choose|t: u32| nfa.delta(a0).contains((m.0, t)) && nfa.landing(t).contains(m.1);
        }
    }
    assert(nfa.hat_empty(a0));
    assert(image.states[a0 as int] is Final);
    assert(pruned.accept =~= seq![a0]);
    assert(pruned.accept.last() == a0);
    if plain.accept.len() > 0 {
        assert(pruned.kept_id(a0) is Some);
        pruned.lemma_live_below(a0 as int, n);
        let new_accept = pruned.live_below(a0 as int) as u32;
        assert(plain.accept =~= seq![new_accept]);
        assert(pruned.states[a0 as int] is Final);
        pruned.lemma_compacted_at(n, a0 as int);
        assert(plain.states[new_accept as int] == pruned.renumbered(pruned.states[a0 as int]));
    }
}

} // verus!
