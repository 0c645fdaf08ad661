//! The classes of states of a dense automaton that no word tells apart.
use crate::dense::DenseModel;
use crate::minimize::{group_index, lemma_group_index, sets_of};
use vstd::prelude::*;

verus! {

impl DenseModel {
    /// The least state from `from` on that no word tells from `x`; `x`
    /// itself at the latest.
    pub open spec fn least_from(self, x: u128, from: u128) -> u128
        decreases x - from,
    {
        if from >= x {
            x
        } else if self.equivalent(from, x) {
            from
        } else {
            self.least_from(x, (from + 1) as u128)
        }
    }

    /// The leader of the class of `x`: the least state that no word tells
    /// from `x`.
    pub open spec fn leader_of(self, x: u128) -> u128 {
        self.least_from(x, 0)
    }

    /// The states above `m` and below `upto` that no word tells from `m`,
    /// in ascending order.
    pub open spec fn partners(self, m: u128, upto: int) -> Seq<u128>
        decreases upto,
    {
        if upto <= m + 1 {
            Seq::empty()
        } else if self.equivalent(m, (upto - 1) as u128) {
            self.partners(m, upto - 1).push((upto - 1) as u128)
        } else {
            self.partners(m, upto - 1)
        }
    }

    /// `m` leads a class of two states or more.
    pub open spec fn is_leader(self, m: u128) -> bool {
        self.leader_of(m) == m && self.partners(m, self.states as int).len() > 0
    }

    /// The class that `m` leads: `m` and then its partners.
    pub open spec fn class_of(self, m: u128) -> Seq<u128> {
        seq![m] + self.partners(m, self.states as int)
    }

    /// The classes of two states or more whose leaders lie below `upto`, in
    /// the ascending order of their leaders.
    pub open spec fn classes_upto(self, upto: int) -> Seq<Seq<u128>>
        decreases upto,
    {
        if upto <= 0 {
            Seq::empty()
        } else if self.is_leader((upto - 1) as u128) {
            self.classes_upto(upto - 1).push(self.class_of((upto - 1) as u128))
        } else {
            self.classes_upto(upto - 1)
        }
    }

    /// The classes of two states or more, in the ascending order of their
    /// leaders.
    pub open spec fn classes(self) -> Seq<Seq<u128>> {
        self.classes_upto(self.states as int)
    }

    /// The classes of two states or more as sets, in the ascending order of
    /// their leaders.
    pub open spec fn class_sets(self) -> Seq<Set<u128>> {
        sets_of(self.classes())
    }

    /// What the search for the least equivalent state finds.
    pub proof fn lemma_least_from(self, x: u128, from: u128)
        requires
            from <= x,
        ensures
            from <= self.least_from(x, from) <= x,
            self.equivalent(self.least_from(x, from), x),
            forall|y: u128| from <= y < self.least_from(x, from) ==> !#[trigger] self.equivalent(y, x),
        decreases x - from,
    {
        self.lemma_equivalent_refl(x);
        if from < x && !self.equivalent(from, x) {
            self.lemma_least_from(x, (from + 1) as u128);
        }
    }

    /// The leader of `x` is the least state that is equivalent to `x`, and it
    /// is its own leader.
    pub proof fn lemma_leader_of(self, x: u128)
        ensures
            self.leader_of(x) <= x,
            self.equivalent(self.leader_of(x), x),
            self.equivalent(x, self.leader_of(x)),
            forall|y: u128| y < self.leader_of(x) ==> !#[trigger] self.equivalent(y, x),
            self.leader_of(self.leader_of(x)) == self.leader_of(x),
    {
        let m = self.leader_of(x);
        self.lemma_least_from(x, 0);
        self.lemma_equivalent_sym(m, x);
        self.lemma_least_from(m, 0);
        let mm = self.leader_of(m);
        if mm < m {
            self.lemma_equivalent_trans(mm, m, x);
        }
    }

    /// Equivalent states have one leader.
    pub proof fn lemma_leader_same(self, x: u128, y: u128)
        requires
            self.equivalent(x, y),
        ensures
            self.leader_of(x) == self.leader_of(y),
    {
        let a = self.leader_of(x);
        let b = self.leader_of(y);
        self.lemma_leader_of(x);
        self.lemma_leader_of(y);
        self.lemma_equivalent_sym(x, y);
        if a < b {
            self.lemma_equivalent_trans(a, x, y);
        } else if b < a {
            self.lemma_equivalent_trans(b, y, x);
        }
    }

    /// What the partners of `m` below `upto` are, and that they ascend.
    pub proof fn lemma_partners(self, m: u128, upto: int)
        requires
            upto <= u128::MAX,
        ensures
            forall|x: u128|
                #[trigger] self.partners(m, upto).contains(x) <==> (m < x < upto && self.equivalent(
                    m,
                    x,
                )),
            forall|i: int, j: int|
                0 <= i < j < self.partners(m, upto).len() ==> self.partners(m, upto)[i]
                    < self.partners(m, upto)[j],
        decreases upto,
    {
        if upto > m + 1 {
            let before = self.partners(m, upto - 1);
            let last = (upto - 1) as u128;
            self.lemma_partners(m, upto - 1);
            let now = self.partners(m, upto);
            assert forall|x: u128| #[trigger] now.contains(x) <==> (m < x < upto && self.equivalent(
                m,
                x,
            )) by {
                crate::graph::lemma_push_contains(before, last, x);
            }
            assert forall|i: int, j: int| 0 <= i < j < now.len() implies now[i] < now[j] by {
                if j == before.len() {
                    assert(before.contains(before[i]));
                }
            }
        }
    }

    /// What the class of `m` holds.
    pub proof fn lemma_class_of(self, m: u128, x: u128)
        requires
            self.states <= u128::MAX,
        ensures
            self.class_of(m).contains(x) <==> (x == m || (m < x < self.states && self.equivalent(
                m,
                x,
            ))),
            self.class_of(m)[0] == m,
    {
        let rest = self.partners(m, self.states as int);
        let all = self.class_of(m);
        self.lemma_partners(m, self.states as int);
        if all.contains(x) {
            let i = choose|i: int| 0 <= i < all.len() && all[i] == x;
            if i > 0 {
                assert(rest[i - 1] == x);
                assert(rest.contains(x));
            }
        }
        if x == m {
            assert(all[0] == x);
        }
        if rest.contains(x) {
            let i = choose|i: int| 0 <= i < rest.len() && rest[i] == x;
            assert(all[i + 1] == x);
        }
    }

    /// The classes below one bound begin the classes below a larger bound.
    pub proof fn lemma_classes_prefix(self, k1: int, k2: int)
        requires
            k1 <= k2,
        ensures
            self.classes_upto(k1).len() <= self.classes_upto(k2).len(),
            forall|i: int|
                0 <= i < self.classes_upto(k1).len() ==> #[trigger] self.classes_upto(k2)[i]
                    == self.classes_upto(k1)[i],
        decreases k2 - k1,
    {
        if k1 < k2 {
            self.lemma_classes_prefix(k1, k2 - 1);
        }
    }

    /// The class of a leader below `k` stands among the classes below `k`,
    /// at the place that the number of leaders below it gives.
    pub proof fn lemma_class_at(self, m: u128, k: int)
        requires
            self.is_leader(m),
            m < k,
        ensures
            self.classes_upto(m as int).len() < self.classes_upto(k).len(),
            self.classes_upto(k)[self.classes_upto(m as int).len() as int] == self.class_of(m),
    {
        let here = self.classes_upto(m as int).len() as int;
        assert(self.classes_upto(m + 1) == self.classes_upto(m as int).push(self.class_of(m)));
        assert(self.classes_upto(m + 1)[here] == self.class_of(m));
        self.lemma_classes_prefix(m + 1, k);
    }

    /// Each of the classes below `k` is the class of a leader below `k`, and
    /// stands at the place that the number of leaders below that leader
    /// gives.
    pub proof fn lemma_class_leader(self, k: int, i: int) -> (m: u128)
        requires
            0 <= i < self.classes_upto(k).len(),
            k <= u128::MAX,
        ensures
            m < k,
            self.is_leader(m),
            self.classes_upto(m as int).len() == i,
            self.classes_upto(k)[i] == self.class_of(m),
        decreases k,
    {
        if self.is_leader((k - 1) as u128) && i == self.classes_upto(k - 1).len() {
            (k - 1) as u128
        } else {
            self.lemma_class_leader(k - 1, i)
        }
    }

    /// Where the classes below `k` hold `x`: in the class of its leader, if
    /// that leads a class and lies below `k`, and nowhere else.
    pub proof fn lemma_group_index_of(self, k: int, x: u128)
        requires
            self.states <= u128::MAX,
            0 <= k <= self.states,
            x < self.states,
        ensures
            group_index(sets_of(self.classes_upto(k)), x) == (if self.leader_of(x) < k && self.is_leader(
                self.leader_of(x),
            ) {
                self.classes_upto(self.leader_of(x) as int).len()
            } else {
                self.classes_upto(k).len()
            }),
            self.leader_of(x) < k && self.is_leader(self.leader_of(x)) ==> self.classes_upto(
                self.leader_of(x) as int,
            ).len() < self.classes_upto(k).len() && self.classes_upto(k)[self.classes_upto(
                self.leader_of(x) as int,
            ).len() as int] == self.class_of(self.leader_of(x)),
    {
        let lists = self.classes_upto(k);
        let groups = sets_of(lists);
        let m = self.leader_of(x);
        self.lemma_leader_of(x);
        assert forall|j: int| 0 <= j < groups.len() && (#[trigger] groups[j]).contains(
            x,
        ) implies m < k && self.is_leader(m) && j == self.classes_upto(m as int).len() by {
            let mj = self.lemma_class_leader(k, j);
            self.lemma_class_of(mj, x);
            self.lemma_leader_of(mj);
            if x != mj {
                self.lemma_leader_same(mj, x);
            }
        }
        if m < k && self.is_leader(m) {
            self.lemma_class_at(m, k);
            self.lemma_class_of(m, x);
            let here = self.classes_upto(m as int).len() as int;
            assert(groups[here].contains(x));
            lemma_group_index(groups, x, here);
        } else {
            lemma_group_index(groups, x, groups.len() as int);
        }
    }
}

impl DenseModel {
    /// `other` has the alphabet, the states, the accept states and the
    /// moves of this automaton.
    pub open spec fn same_moves(self, other: DenseModel) -> bool {
        &&& self.alphabet == other.alphabet
        &&& self.states == other.states
        &&& self.accept == other.accept
        &&& forall|s: int, k: int|
            0 <= s < self.states && 0 <= k < self.alphabet.len() ==> #[trigger] self.at(s, k)
                == other.at(s, k)
    }

    /// Two automata with the same moves read a word alike.
    pub proof fn lemma_same_run(self, other: DenseModel, s: u128, w: Seq<u8>)
        requires
            self.closed(),
            self.same_moves(other),
            s < self.states,
            self.word(w),
        ensures
            self.run(s, w) == other.run(s, w),
        decreases w.len(),
    {
        if w.len() > 0 {
            crate::dense::lemma_first_index_range(self.alphabet, w[0]);
            let k = self.column(w[0]);
            assert(self.alphabet.contains(w[0]));
            assert(self.at(s as int, k) == other.at(s as int, k));
            assert(self.at(s as int, k) < self.states);
            let rest = w.drop_first();
            assert forall|i: int| 0 <= i < rest.len() implies self.alphabet.contains(
                #[trigger] rest[i],
            ) by {
                assert(rest[i] == w[i + 1]);
            }
            self.lemma_same_run(other, self.next(s, w[0]), rest);
        }
    }

    /// What tells two states apart in one automaton tells them apart in
    /// another with the same moves.
    pub proof fn lemma_same_told_apart(self, other: DenseModel, p: u128, q: u128)
        requires
            self.closed(),
            self.same_moves(other),
            p < self.states,
            q < self.states,
            self.distinguishable(p, q),
        ensures
            other.distinguishable(p, q),
    {
        let w = choose|w: Seq<u8>| #[trigger] self.tells_apart(w, p, q);
        self.lemma_same_run(other, p, w);
        self.lemma_same_run(other, q, w);
        assert(other.tells_apart(w, p, q));
    }

    /// Two automata with the same moves have the same equivalent states.
    pub proof fn lemma_same_equivalent(self, other: DenseModel, p: u128, q: u128)
        requires
            self.closed(),
            other.closed(),
            self.same_moves(other),
            p < self.states,
            q < self.states,
        ensures
            self.equivalent(p, q) == other.equivalent(p, q),
    {
        if self.distinguishable(p, q) {
            self.lemma_same_told_apart(other, p, q);
        }
        if other.distinguishable(p, q) {
            assert(other.same_moves(self));
            other.lemma_same_told_apart(self, p, q);
        }
    }

    /// Two automata with the same moves find the same least equivalent
    /// state.
    pub proof fn lemma_same_least(self, other: DenseModel, x: u128, from: u128)
        requires
            self.closed(),
            other.closed(),
            self.same_moves(other),
            x < self.states,
        ensures
            self.least_from(x, from) == other.least_from(x, from),
        decreases x - from,
    {
        if from < x {
            self.lemma_same_equivalent(other, from, x);
            if !self.equivalent(from, x) {
                self.lemma_same_least(other, x, (from + 1) as u128);
            }
        }
    }

    /// Two automata with the same moves give a state the same partners.
    pub proof fn lemma_same_partners(self, other: DenseModel, m: u128, upto: int)
        requires
            self.closed(),
            other.closed(),
            self.same_moves(other),
            m < self.states,
            upto <= self.states,
        ensures
            self.partners(m, upto) == other.partners(m, upto),
        decreases upto,
    {
        if upto > m + 1 {
            self.lemma_same_equivalent(other, m, (upto - 1) as u128);
            self.lemma_same_partners(other, m, upto - 1);
        }
    }

    /// Two automata with the same moves have the same classes.
    pub proof fn lemma_same_classes(self, other: DenseModel, upto: int)
        requires
            self.closed(),
            other.closed(),
            self.same_moves(other),
            upto <= self.states,
        ensures
            self.classes_upto(upto) == other.classes_upto(upto),
        decreases upto,
    {
        if upto > 0 {
            let m = (upto - 1) as u128;
            self.lemma_same_least(other, m, 0);
            self.lemma_same_partners(other, m, self.states as int);
            self.lemma_same_classes(other, upto - 1);
        }
    }
}

} // verus!
