//! The quotient of a dense automaton by the equivalence of its states: the
//! automaton that minimisation builds.
use crate::dense::DenseModel;
use crate::minimize::{group_index, lemma_group_index_range};
use vstd::prelude::*;

verus! {

/// The number of states below `k` that stand in none of the groups.
pub open spec fn singles_below(groups: Seq<Set<u128>>, k: int) -> nat
    decreases k,
{
    if k <= 0 {
        0
    } else {
        singles_below(groups, k - 1) + if group_index(groups, (k - 1) as u128) < groups.len() {
            0nat
        } else {
            1nat
        }
    }
}

/// The new number of state `x` out of `n` states: a state that stands alone
/// keeps its place among such states, and the states of a group get the
/// number of the group, counted on from the states that stand alone.
pub open spec fn new_id(groups: Seq<Set<u128>>, x: u128, n: int) -> int {
    if group_index(groups, x) < groups.len() {
        singles_below(groups, n) + group_index(groups, x)
    } else {
        singles_below(groups, x as int) as int
    }
}

/// Fewer than `a` states stand alone below `a`, or `a` of them.
pub proof fn lemma_singles_bound(groups: Seq<Set<u128>>, a: int)
    requires
        0 <= a,
    ensures
        singles_below(groups, a) <= a,
    decreases a,
{
    if a > 0 {
        lemma_singles_bound(groups, a - 1);
    }
}

/// The count of the states that stand alone never goes down, and goes up past a state
/// that stands alone.
pub proof fn lemma_singles_monotone(groups: Seq<Set<u128>>, a: int, b: int)
    requires
        a <= b,
    ensures
        singles_below(groups, a) <= singles_below(groups, b),
        0 <= a ==> singles_below(groups, a) <= a,
        a < b && 0 <= a && group_index(groups, a as u128) >= groups.len() ==> singles_below(
            groups,
            a,
        ) < singles_below(groups, b),
    decreases b - a,
{
    if a < b {
        lemma_singles_monotone(groups, a, b - 1);
    }
    if 0 <= a {
        lemma_singles_bound(groups, a);
    }
}

impl DenseModel {
    /// The new number of state `x` in the quotient.
    pub open spec fn class_id(self, x: u128) -> int {
        new_id(self.class_sets(), x, self.states as int)
    }

    /// The number of states of the quotient.
    pub open spec fn class_count(self) -> int {
        (singles_below(self.class_sets(), self.states as int) + self.classes().len()) as int
    }

    /// The states below `k` that stand alone and the leaders below `k` are
    /// at most `k` states; they are fewer if some class has two states.
    pub proof fn lemma_count_upto(self, k: int)
        requires
            self.states <= u128::MAX,
            0 <= k <= self.states,
        ensures
            singles_below(self.class_sets(), k) + self.classes_upto(k).len() <= k,
            forall|x: u128|
                x < k && self.leader_of(x) != x ==> singles_below(self.class_sets(), k)
                    + self.classes_upto(k).len() < k,
        decreases k,
    {
        if k > 0 {
            let x = (k - 1) as u128;
            self.lemma_count_upto(k - 1);
            self.lemma_group_index_of(self.states as int, x);
            self.lemma_leader_of(x);
            if self.leader_of(x) != x {
                let m = self.leader_of(x);
                self.lemma_partners(m, self.states as int);
                assert(self.partners(m, self.states as int).contains(x));
                assert(self.is_leader(m));
                self.lemma_leader_of(m);
            }
        }
    }

    /// The quotient has at most as many states as the automaton, and fewer
    /// if two states are equivalent.
    pub proof fn lemma_class_count(self)
        requires
            self.states <= u128::MAX,
        ensures
            0 <= self.class_count() <= self.states,
            self.classes().len() > 0 ==> self.class_count() < self.states,
    {
        let n = self.states as int;
        self.lemma_count_upto(n);
        if self.classes().len() > 0 {
            let m = self.lemma_class_leader(n, 0);
            let rest = self.partners(m, n);
            self.lemma_partners(m, n);
            let x = rest[0];
            assert(rest.contains(x));
            self.lemma_leader_of(x);
            self.lemma_equivalent_sym(m, x);
            if self.leader_of(x) == x {
                assert(self.equivalent(m, x));
            }
        }
    }

    /// The new number of a state is a state of the quotient.
    pub proof fn lemma_class_id_range(self, x: u128)
        requires
            self.states <= u128::MAX,
            x < self.states,
        ensures
            0 <= self.class_id(x) < self.class_count(),
    {
        let g = self.class_sets();
        lemma_group_index_range(g, x);
        if group_index(g, x) >= g.len() {
            lemma_singles_monotone(g, x as int, self.states as int);
        }
    }

    /// Equivalent states get one new number.
    pub proof fn lemma_class_id_equivalent(self, x: u128, y: u128)
        requires
            self.states <= u128::MAX,
            x < self.states,
            y < self.states,
            self.equivalent(x, y),
        ensures
            self.class_id(x) == self.class_id(y),
    {
        if x != y {
            let n = self.states as int;
            self.lemma_leader_same(x, y);
            let m = self.leader_of(x);
            self.lemma_leader_of(x);
            self.lemma_leader_of(y);
            self.lemma_partners(m, n);
            if m != x {
                assert(self.partners(m, n).contains(x));
            } else {
                assert(self.partners(m, n).contains(y));
            }
            assert(self.is_leader(m));
            self.lemma_group_index_of(n, x);
            self.lemma_group_index_of(n, y);
        }
    }

    /// States with one new number are equivalent.
    pub proof fn lemma_class_id_same(self, x: u128, y: u128)
        requires
            self.states <= u128::MAX,
            x < self.states,
            y < self.states,
            self.class_id(x) == self.class_id(y),
        ensures
            self.equivalent(x, y),
    {
        let n = self.states as int;
        let g = self.class_sets();
        self.lemma_equivalent_refl(x);
        if x != y {
            lemma_group_index_range(g, x);
            lemma_group_index_range(g, y);
            self.lemma_group_index_of(n, x);
            self.lemma_group_index_of(n, y);
            let i = group_index(g, x);
            let j = group_index(g, y);
            if i < g.len() && j < g.len() {
                self.lemma_leader_of(x);
                self.lemma_leader_of(y);
                let m = self.leader_of(x);
                assert(self.leader_of(y) == m) by {
                    let mx = self.lemma_class_leader(n, i);
                    self.lemma_class_of(mx, x);
                    self.lemma_class_of(mx, y);
                    self.lemma_leader_of(mx);
                    if x != mx {
                        self.lemma_leader_same(mx, x);
                    }
                    if y != mx {
                        self.lemma_leader_same(mx, y);
                    }
                }
                self.lemma_equivalent_trans(x, m, y);
            } else if i >= g.len() && j >= g.len() {
                if x < y {
                    lemma_singles_monotone(g, x as int, y as int);
                } else {
                    lemma_singles_monotone(g, y as int, x as int);
                }
            } else if i >= g.len() {
                lemma_singles_monotone(g, x as int, n);
            } else {
                lemma_singles_monotone(g, y as int, n);
            }
        }
    }
}

/// `m` is the quotient of `d` by the equivalence of its states: its states
/// are the states of `d` that stand alone, in their order, and then the
/// classes of two states or more, in the order of their leaders; each state
/// leads where the states that it stands for lead, the start state stands
/// for the start state of `d`, and a state accepts if it stands for an
/// accept state of `d`.
pub open spec fn quotient_of(d: DenseModel, m: DenseModel) -> bool {
    &&& m.wf()
    &&& m.alphabet == d.alphabet
    &&& m.states == d.class_count()
    &&& forall|x: u128, k: int|
        x < d.states && 0 <= k < d.alphabet.len() ==> #[trigger] m.at(d.class_id(x), k)
            == d.class_id(d.at(x as int, k))
    &&& m.start == Some(d.class_id(d.start->Some_0) as u128)
    &&& m.accept == Set::new(|y: u128| exists|x: u128| d.accept.contains(x) && d.class_id(x) == y)
    &&& m.ins_right_upto(m.states as int)
    &&& m.padding_clear()
}

/// The rows of the states that stand alone are right for the states below
/// `upto`.
pub open spec fn single_rows_right(d: DenseModel, m: DenseModel, upto: int) -> bool {
    forall|x: u128, k: int|
        x < upto && group_index(d.class_sets(), x) >= d.classes().len() && 0 <= k
            < d.alphabet.len() ==> #[trigger] m.at(singles_below(d.class_sets(), x as int) as int, k)
            == d.class_id(d.at(x as int, k))
}

/// The rows of the groups below `upto` are right for the leaders of the
/// groups.
pub open spec fn group_rows_right(d: DenseModel, m: DenseModel, upto: int) -> bool {
    forall|j: int, k: int|
        0 <= j < upto && 0 <= k < d.alphabet.len() ==> #[trigger] m.at(
            singles_below(d.class_sets(), d.states as int) + j,
            k,
        ) == d.class_id(d.at(d.classes()[j][0] as int, k))
}

/// Rows that are right for the states that stand alone and for the leaders
/// are right for all states.
pub proof fn lemma_quotient_cells(d: DenseModel, m: DenseModel, x: u128, k: int)
    requires
        d.wf(),
        d.closed(),
        single_rows_right(d, m, d.states as int),
        group_rows_right(d, m, d.classes().len() as int),
        x < d.states,
        0 <= k < d.alphabet.len(),
    ensures
        m.at(d.class_id(x), k) == d.class_id(d.at(x as int, k)),
{
    let g = d.class_sets();
    let n = d.states as int;
    lemma_group_index_range(g, x);
    let i = group_index(g, x);
    if i < g.len() {
        let leader = d.lemma_class_leader(n, i);
        d.lemma_class_of(leader, x);
        assert(d.classes()[i][0] == leader);
        assert(m.at(singles_below(g, n) + i, k) == d.class_id(d.at(d.classes()[i][0] as int, k)));
        assert(d.at(leader as int, k) < d.states);
        assert(d.at(x as int, k) < d.states);
        if x != leader {
            d.lemma_equivalent_step(leader, x, k);
            d.lemma_class_id_equivalent(d.at(leader as int, k), d.at(x as int, k));
        }
    } else {
        assert(m.at(singles_below(g, x as int) as int, k) == d.class_id(d.at(x as int, k)));
    }
}

impl DenseModel {
    /// Some word tells any two states apart if and only if no class has two
    /// states.
    pub proof fn lemma_minimal_iff(self)
        requires
            self.states <= u128::MAX,
        ensures
            self.minimal() <==> self.classes().len() == 0,
    {
        let n = self.states as int;
        if self.classes().len() > 0 {
            let m = self.lemma_class_leader(n, 0);
            let rest = self.partners(m, n);
            self.lemma_partners(m, n);
            let x = rest[0];
            assert(rest.contains(x));
            assert(m < x < self.states && !self.distinguishable(m, x));
        } else {
            assert forall|p: u128, q: u128| p < q < self.states implies #[trigger] self.distinguishable(
                p,
                q,
            ) by {
                if self.equivalent(p, q) {
                    let m = self.leader_of(p);
                    self.lemma_leader_of(p);
                    self.lemma_leader_same(p, q);
                    self.lemma_leader_of(q);
                    self.lemma_partners(m, n);
                    assert(self.partners(m, n).contains(q));
                    assert(self.is_leader(m));
                    self.lemma_class_at(m, n);
                }
            }
        }
    }
}

/// Every state of the quotient stands for a state of the automaton.
pub proof fn lemma_class_id_onto(d: DenseModel, y: int) -> (x: u128)
    requires
        d.states <= u128::MAX,
        0 <= y < d.class_count(),
    ensures
        x < d.states,
        d.class_id(x) == y,
{
    let g = d.class_sets();
    let n = d.states as int;
    let singles = singles_below(g, n) as int;
    if y < singles {
        let x = lemma_single_with_rank(g, n, y);
        x
    } else {
        let leader = d.lemma_class_leader(n, y - singles);
        d.lemma_leader_of(leader);
        d.lemma_group_index_of(n, leader);
        leader
    }
}

/// Among the states below `k`, the one that stands alone and has `y` such
/// states below it.
pub proof fn lemma_single_with_rank(g: Seq<Set<u128>>, k: int, y: int) -> (x: u128)
    requires
        0 <= y < singles_below(g, k),
        k <= u128::MAX,
    ensures
        x < k,
        group_index(g, x) >= g.len(),
        singles_below(g, x as int) == y,
        new_id(g, x, k) == y,
    decreases k,
{
    lemma_group_index_range(g, (k - 1) as u128);
    if group_index(g, (k - 1) as u128) >= g.len() && singles_below(g, k - 1) == y {
        (k - 1) as u128
    } else {
        let x = lemma_single_with_rank(g, k - 1, y);
        x
    }
}

/// The quotient leads to states only, and its start and accept states are
/// states.
pub proof fn lemma_quotient_closed(d: DenseModel, m: DenseModel)
    requires
        d.wf(),
        d.closed(),
        quotient_of(d, m),
    ensures
        m.closed(),
{
    assert forall|s: int, k: int| 0 <= s < m.states && 0 <= k < m.alphabet.len() implies #[trigger] m.at(
        s,
        k,
    ) < m.states by {
        let x = lemma_class_id_onto(d, s);
        assert(m.at(d.class_id(x), k) == d.class_id(d.at(x as int, k)));
        assert(d.at(x as int, k) < d.states);
        d.lemma_class_id_range(d.at(x as int, k));
    }
    d.lemma_class_id_range(d.start->Some_0);
    assert forall|s: u128| #[trigger] m.accept.contains(s) implies s < m.states by {
        let x = choose|x: u128| d.accept.contains(x) && d.class_id(x) == s;
        d.lemma_class_id_range(x);
    }
}

/// Reading a word in the quotient from the state that stands for `x` leads
/// to the state that stands for where the word leads from `x`.
pub proof fn lemma_quotient_run(d: DenseModel, m: DenseModel, x: u128, w: Seq<u8>)
    requires
        d.wf(),
        d.closed(),
        quotient_of(d, m),
        x < d.states,
        d.word(w),
    ensures
        d.run(x, w) < d.states,
        m.run(d.class_id(x) as u128, w) == d.class_id(d.run(x, w)),
    decreases w.len(),
{
    d.lemma_class_id_range(x);
    if w.len() > 0 {
        let a = w[0];
        let rest = w.drop_first();
        crate::dense::lemma_first_index_range(d.alphabet, a);
        let k = d.column(a);
        assert(d.alphabet.contains(a));
        assert(d.at(x as int, k) < d.states);
        assert(m.at(d.class_id(x), k) == d.class_id(d.at(x as int, k)));
        assert forall|i: int| 0 <= i < rest.len() implies d.alphabet.contains(#[trigger] rest[i]) by {
            assert(rest[i] == w[i + 1]);
        }
        d.lemma_class_id_range(d.at(x as int, k));
        lemma_quotient_run(d, m, d.next(x, a), rest);
    }
}

/// A state of the quotient accepts if and only if the states that it
/// stands for accept.
pub proof fn lemma_quotient_accept(d: DenseModel, m: DenseModel, x: u128)
    requires
        d.wf(),
        d.closed(),
        quotient_of(d, m),
        x < d.states,
    ensures
        m.accept.contains(d.class_id(x) as u128) == d.accept.contains(x),
{
    d.lemma_class_id_range(x);
    let y = d.class_id(x) as u128;
    if m.accept.contains(y) {
        let z = choose|z: u128| d.accept.contains(z) && d.class_id(z) == y;
        d.lemma_class_id_same(x, z);
        d.lemma_equivalent_accept(x, z);
    }
}

/// The quotient accepts the words that the automaton accepts.
pub proof fn lemma_quotient_language(d: DenseModel, m: DenseModel, w: Seq<u8>)
    requires
        d.wf(),
        d.closed(),
        quotient_of(d, m),
        d.word(w),
    ensures
        m.accepts(w) == d.accepts(w),
{
    let start = d.start->Some_0;
    lemma_quotient_run(d, m, start, w);
    lemma_quotient_accept(d, m, d.run(start, w));
    d.lemma_class_id_range(start);
}

/// Some word tells any two states of the quotient apart: minimising it
/// again finds nothing to merge.
pub proof fn lemma_quotient_minimal(d: DenseModel, m: DenseModel)
    requires
        d.wf(),
        d.closed(),
        quotient_of(d, m),
    ensures
        m.minimal(),
{
    assert forall|p: u128, q: u128| p < q < m.states implies #[trigger] m.distinguishable(p, q) by {
        let x = lemma_class_id_onto(d, p as int);
        let y = lemma_class_id_onto(d, q as int);
        if d.equivalent(x, y) {
            d.lemma_class_id_equivalent(x, y);
        }
        let w = choose|w: Seq<u8>| #[trigger] d.tells_apart(w, x, y);
        lemma_quotient_run(d, m, x, w);
        lemma_quotient_run(d, m, y, w);
        lemma_quotient_accept(d, m, d.run(x, w));
        lemma_quotient_accept(d, m, d.run(y, w));
        assert(m.tells_apart(w, p, q));
    }
}

/// The quotient has at most as many states as the automaton, and fewer if
/// the automaton is not minimal.
pub proof fn lemma_quotient_smaller(d: DenseModel, m: DenseModel)
    requires
        d.wf(),
        quotient_of(d, m),
    ensures
        m.states <= d.states,
        !d.minimal() ==> m.states < d.states,
{
    d.lemma_class_count();
    d.lemma_minimal_iff();
}

} // verus!
