//! Minimisation of a finished automaton by table filling: every pair of
//! states that some word tells apart is marked, and the states of the pairs
//! that stay unmarked are merged.
use crate::dense::{DenseDFA, DenseModel};
use crate::traits::{lemma_tables_alike, tabulates, Alphabet, CompletedDfa};
use std::collections::{HashMap, HashSet};
use vstd::prelude::*;

verus! {

broadcast use vstd::std_specs::hash::group_hash_axioms;

/// The two states with the smaller one first.
pub open spec fn ordered(a: u128, b: u128) -> (u128, u128) {
    if a < b {
        (a, b)
    } else {
        (b, a)
    }
}

/// The two states with the smaller one first.
pub fn order_pair(state1: u128, state2: u128) -> (r: (u128, u128))
    ensures
        r == ordered(state1, state2),
{
    if state1 < state2 {
        (state1, state2)
    } else {
        (state2, state1)
    }
}

/// What the table knows of one pair of states: whether some word tells them
/// apart, and the pairs that are told apart as soon as this one is.
struct StatePair {
    associated: Vec<(u128, u128)>,
    distinguishable: bool,
}

impl StatePair {
    fn new() -> (r: StatePair)
        ensures
            !r.distinguishable,
            r.associated@.len() == 0,
    {
        StatePair { associated: Vec::new(), distinguishable: false }
    }

    /// Notes that the two states are told apart as soon as the states of
    /// this pair are.
    fn add_relation(&mut self, state1: u128, state2: u128)
        ensures
            final(self).distinguishable == old(self).distinguishable,
            final(self).associated@ == old(self).associated@.push(ordered(state1, state2)),
    {
        let pair: (u128, u128) = order_pair(state1, state2);
        self.associated.push(pair);
    }
}

/// One record for each pair of states; the record of the states `p < q`
/// stands in row `p` and column `q`.
struct PairTable {
    table: Vec<Vec<StatePair>>,
}

impl PairTable {
    /// The number of states.
    spec fn size(&self) -> nat {
        self.table@.len()
    }

    /// The table is square.
    spec fn wf(&self) -> bool {
        forall|p: int| 0 <= p < self.table@.len() ==> (#[trigger] self.table@[p])@.len()
            == self.table@.len()
    }

    /// The pair `(p, q)` is marked as told apart.
    spec fn marked(&self, p: int, q: int) -> bool {
        self.table@[p]@[q].distinguishable
    }

    /// The pairs that are told apart as soon as `(p, q)` is.
    spec fn list(&self, p: int, q: int) -> Seq<(u128, u128)> {
        self.table@[p]@[q].associated@
    }

    /// The table for `state_num` states: no pair is marked and no pair
    /// waits for another.
    fn new(state_num: usize) -> (t: PairTable)
        ensures
            t.wf(),
            t.size() == state_num,
            forall|p: int, q: int|
                0 <= p < state_num && 0 <= q < state_num ==> !(#[trigger] t.marked(p, q)),
            forall|p: int, q: int|
                0 <= p < state_num && 0 <= q < state_num ==> (#[trigger] t.list(p, q)).len() == 0,
    {
        let mut table: Vec<Vec<StatePair>> = Vec::new();
        let mut p: usize = 0;
        while p < state_num
            invariant
                p <= state_num,
                table@.len() == p,
                forall|i: int| 0 <= i < p ==> (#[trigger] table@[i])@.len() == state_num,
                forall|i: int, j: int|
                    0 <= i < p && 0 <= j < state_num ==> !(#[trigger] table@[i]@[j]).distinguishable
                        && table@[i]@[j].associated@.len() == 0,
            decreases state_num - p,
        {
            let mut row: Vec<StatePair> = Vec::new();
            let mut q: usize = 0;
            while q < state_num
                invariant
                    q <= state_num,
                    row@.len() == q,
                    forall|j: int|
                        0 <= j < q ==> !(#[trigger] row@[j]).distinguishable
                            && row@[j].associated@.len() == 0,
                decreases state_num - q,
            {
                row.push(StatePair::new());
                q += 1;
            }
            table.push(row);
            p += 1;
        }
        let t = PairTable { table };
        assert forall|p: int, q: int| 0 <= p < state_num && 0 <= q < state_num implies !(
        #[trigger] t.marked(p, q)) by {
            assert(!t.table@[p]@[q].distinguishable);
        }
        assert forall|p: int, q: int| 0 <= p < state_num && 0 <= q < state_num implies (
        #[trigger] t.list(p, q)).len() == 0 by {
            assert(t.table@[p]@[q].associated@.len() == 0);
        }
        t
    }

    /// Whether the two states, in either order, are marked as told apart.
    fn is_distinguishable(&self, state1: u128, state2: u128) -> (r: bool)
        requires
            self.wf(),
            state1 < self.size(),
            state2 < self.size(),
        ensures
            r == self.marked(ordered(state1, state2).0 as int, ordered(state1, state2).1 as int),
    {
        let pair: (u128, u128) = order_pair(state1, state2);
        assert(self.table@.len() == self.table.len());
        assert(self.table@[pair.0 as int]@.len() == self.table@.len());
        self.table[pair.0 as usize][pair.1 as usize].distinguishable
    }

    /// Marks the pair `(p, q)` and hands out the pairs that waited for it.
    fn mark(&mut self, p: u128, q: u128) -> (waiting: Vec<(u128, u128)>)
        requires
            old(self).wf(),
            p < old(self).size(),
            q < old(self).size(),
        ensures
            final(self).wf(),
            final(self).size() == old(self).size(),
            waiting@ == old(self).list(p as int, q as int),
            forall|x: int, y: int|
                0 <= x < final(self).size() && 0 <= y < final(self).size()
                    ==> #[trigger] final(self).marked(x, y) == (old(self).marked(x, y) || (x
                    == p && y == q)),
            forall|x: int, y: int|
                0 <= x < final(self).size() && 0 <= y < final(self).size()
                    ==> #[trigger] final(self).list(x, y) == (if x == p && y == q {
                    Seq::<(u128, u128)>::empty()
                } else {
                    old(self).list(x, y)
                }),
    {
        assert(self.table@.len() == self.table.len());
        assert(self.table@[p as int]@.len() == self.table@.len());
        let row: usize = p as usize;
        let column: usize = q as usize;
        let mut waiting: Vec<(u128, u128)> = Vec::new();
        self.table[row][column].distinguishable = true;
        std::mem::swap(&mut waiting, &mut self.table[row][column].associated);
        proof {
            let a = old(self).table@;
            let b = self.table@;
            assert forall|i: int| 0 <= i < b.len() implies (#[trigger] b[i])@.len() == b.len() by {
                assert(a[i]@.len() == a.len());
            }
            assert forall|x: int, y: int|
                0 <= x < self.size() && 0 <= y < self.size() implies #[trigger] self.marked(x, y)
                == (old(self).marked(x, y) || (x == p && y == q)) by {
                assert(a[x]@.len() == a.len());
            }
            assert forall|x: int, y: int|
                0 <= x < self.size() && 0 <= y < self.size() implies #[trigger] self.list(x, y)
                == (if x == p && y == q {
                Seq::<(u128, u128)>::empty()
            } else {
                old(self).list(x, y)
            }) by {
                assert(a[x]@.len() == a.len());
                if x == p && y == q {
                    assert(self.list(x, y) =~= Seq::<(u128, u128)>::empty());
                }
            }
        }
        waiting
    }

    /// Notes that `waiting` is told apart as soon as `(p, q)` is.
    fn note(&mut self, p: u128, q: u128, waiting: (u128, u128))
        requires
            old(self).wf(),
            p < old(self).size(),
            q < old(self).size(),
        ensures
            final(self).wf(),
            final(self).size() == old(self).size(),
            forall|x: int, y: int|
                0 <= x < final(self).size() && 0 <= y < final(self).size()
                    ==> #[trigger] final(self).marked(x, y) == old(self).marked(x, y),
            forall|x: int, y: int|
                0 <= x < final(self).size() && 0 <= y < final(self).size()
                    ==> #[trigger] final(self).list(x, y) == (if x == p && y == q {
                    old(self).list(x, y).push(ordered(waiting.0, waiting.1))
                } else {
                    old(self).list(x, y)
                }),
    {
        assert(self.table@.len() == self.table.len());
        assert(self.table@[p as int]@.len() == self.table@.len());
        let row: usize = p as usize;
        let column: usize = q as usize;
        self.table[row][column].add_relation(waiting.0, waiting.1);
        proof {
            let a = old(self).table@;
            let b = self.table@;
            assert forall|i: int| 0 <= i < b.len() implies (#[trigger] b[i])@.len() == b.len() by {
                assert(a[i]@.len() == a.len());
            }
            assert forall|x: int, y: int|
                0 <= x < self.size() && 0 <= y < self.size() implies #[trigger] self.marked(x, y)
                == old(self).marked(x, y) by {
                assert(a[x]@.len() == a.len());
            }
            assert forall|x: int, y: int|
                0 <= x < self.size() && 0 <= y < self.size() implies #[trigger] self.list(x, y)
                == (if x == p && y == q {
                old(self).list(x, y).push(ordered(waiting.0, waiting.1))
            } else {
                old(self).list(x, y)
            }) by {
                assert(a[x]@.len() == a.len());
            }
        }
    }
}

impl PairTable {
    /// The marks as a predicate on pairs.
    spec fn marks(&self) -> spec_fn(int, int) -> bool {
        |p: int, q: int| self.marked(p, q)
    }
}

/// The number of pairs `(p, q)` with `q < upto` that `m` does not hold of.
spec fn count_row(m: spec_fn(int, int) -> bool, p: int, upto: int) -> nat
    decreases upto,
{
    if upto <= 0 {
        0
    } else {
        count_row(m, p, upto - 1) + if m(p, upto - 1) {
            0nat
        } else {
            1nat
        }
    }
}

/// The number of pairs `(p, q)` with `p < rows` and `q < n` that `m` does
/// not hold of.
spec fn count_rows(m: spec_fn(int, int) -> bool, rows: int, n: int) -> nat
    decreases rows,
{
    if rows <= 0 {
        0
    } else {
        count_rows(m, rows - 1, n) + count_row(m, rows - 1, n)
    }
}

proof fn lemma_count_row(
    a: spec_fn(int, int) -> bool,
    b: spec_fn(int, int) -> bool,
    x: int,
    y: int,
    p: int,
    upto: int,
)
    requires
        forall|j: int| 0 <= j < upto ==> #[trigger] b(p, j) == (a(p, j) || (p == x && j == y)),
        !a(x, y),
        0 <= y,
    ensures
        count_row(b, p, upto) == count_row(a, p, upto) - (if p == x && y < upto {
            1int
        } else {
            0int
        }),
    decreases upto,
{
    if upto > 0 {
        lemma_count_row(a, b, x, y, p, upto - 1);
        assert(b(p, upto - 1) == (a(p, upto - 1) || (p == x && upto - 1 == y)));
    }
}

/// One mark more is one unmarked pair less.
proof fn lemma_count_rows(
    a: spec_fn(int, int) -> bool,
    b: spec_fn(int, int) -> bool,
    x: int,
    y: int,
    rows: int,
    n: int,
)
    requires
        forall|i: int, j: int|
            0 <= i < rows && 0 <= j < n ==> #[trigger] b(i, j) == (a(i, j) || (i == x && j == y)),
        !a(x, y),
        0 <= x,
        0 <= y < n,
    ensures
        count_rows(b, rows, n) == count_rows(a, rows, n) - (if x < rows {
            1int
        } else {
            0int
        }),
    decreases rows,
{
    if rows > 0 {
        lemma_count_rows(a, b, x, y, rows - 1, n);
        lemma_count_row(a, b, x, y, rows - 1, n);
    }
}

/// The successors of the two states of `pair` in column `k`, the smaller
/// one first.
spec fn successors(d: DenseModel, pair: (u128, u128), k: int) -> (u128, u128) {
    ordered(d.at(pair.0 as int, k), d.at(pair.1 as int, k))
}

/// Some column leads the states of `pair` to `p` and `q`.
spec fn waits_for(d: DenseModel, pair: (u128, u128), p: int, q: int) -> bool {
    pair.0 < pair.1 < d.states && exists|k: int|
        0 <= k < d.alphabet.len() && #[trigger] successors(d, pair, k) == (p as u128, q as u128)
}

/// A marked pair is told apart by some word.
spec fn sound(d: DenseModel, t: &PairTable) -> bool {
    forall|p: int, q: int|
        0 <= p < q < d.states && #[trigger] t.marked(p, q) ==> d.distinguishable(
            p as u128,
            q as u128,
        )
}

/// A pair that waits for another is led to it by some column.
spec fn lists_valid(d: DenseModel, t: &PairTable) -> bool {
    forall|p: int, q: int, i: int|
        0 <= p < q < d.states && 0 <= i < t.list(p, q).len() ==> waits_for(
            d,
            #[trigger] t.list(p, q)[i],
            p,
            q,
        )
}

/// No pair waits for a marked pair.
spec fn marked_clean(d: DenseModel, t: &PairTable) -> bool {
    forall|p: int, q: int|
        0 <= p < q < d.states && #[trigger] t.marked(p, q) ==> t.list(p, q).len() == 0
}

/// An accept state and another state are marked.
spec fn base(d: DenseModel, t: &PairTable) -> bool {
    forall|p: int, q: int|
        0 <= p < q < d.states && d.accept.contains(p as u128) != d.accept.contains(q as u128)
            ==> #[trigger] t.marked(p, q)
}

/// Column `k` gives no reason to mark `(x, y)` that the table would miss:
/// its successors are one state, or they are unmarked and `(x, y)` waits
/// for them, or `(x, y)` waits in `work` to be marked.
spec fn settled(
    d: DenseModel,
    t: &PairTable,
    work: Seq<(u128, u128)>,
    x: int,
    y: int,
    k: int,
) -> bool {
    let s = successors(d, (x as u128, y as u128), k);
    s.0 == s.1 || (!t.marked(s.0 as int, s.1 as int) && t.list(s.0 as int, s.1 as int).contains(
        (x as u128, y as u128),
    )) || work.contains((x as u128, y as u128))
}

/// The pair `(x, y)` comes before `(row, col)` in the order of the scan.
spec fn before(x: int, y: int, row: int, col: int) -> bool {
    x < row || (x == row && y < col)
}

/// Every unmarked pair that the scan has passed is settled in every column.
spec fn closure(d: DenseModel, t: &PairTable, work: Seq<(u128, u128)>, row: int, col: int) -> bool {
    forall|x: int, y: int, k: int|
        0 <= x < y < d.states && before(x, y, row, col) && !t.marked(x, y) && 0 <= k
            < d.alphabet.len() ==> #[trigger] settled(d, t, work, x, y, k)
}

/// The pairs in `work` are pairs of states that some word tells apart.
spec fn work_valid(d: DenseModel, work: Seq<(u128, u128)>) -> bool {
    forall|i: int|
        0 <= i < work.len() ==> (#[trigger] work[i]).0 < work[i].1 < d.states
            && d.distinguishable(work[i].0, work[i].1)
}

/// What the table filling keeps true.
spec fn table_inv(d: DenseModel, t: &PairTable, work: Seq<(u128, u128)>, row: int, col: int) -> bool {
    &&& t.wf()
    &&& t.size() == d.states
    &&& sound(d, t)
    &&& lists_valid(d, t)
    &&& marked_clean(d, t)
    &&& base(d, t)
    &&& closure(d, t, work, row, col)
    &&& work_valid(d, work)
}

/// `b` is `a` after the pair `(x, y)` was marked and its list taken.
spec fn marked_from(a: &PairTable, b: &PairTable, x: int, y: int) -> bool {
    &&& b.wf()
    &&& b.size() == a.size()
    &&& forall|p: int, q: int|
        0 <= p < b.size() && 0 <= q < b.size() ==> #[trigger] b.marked(p, q) == (a.marked(p, q) || (
        p == x && q == y))
    &&& forall|p: int, q: int|
        0 <= p < b.size() && 0 <= q < b.size() ==> #[trigger] b.list(p, q) == (if p == x && q
            == y {
            Seq::<(u128, u128)>::empty()
        } else {
            a.list(p, q)
        })
}

/// `b` is `a` after `pair` was noted to wait for `(x, y)`.
spec fn noted_from(a: &PairTable, b: &PairTable, x: int, y: int, pair: (u128, u128)) -> bool {
    &&& b.wf()
    &&& b.size() == a.size()
    &&& forall|p: int, q: int|
        0 <= p < b.size() && 0 <= q < b.size() ==> #[trigger] b.marked(p, q) == a.marked(p, q)
    &&& forall|p: int, q: int|
        0 <= p < b.size() && 0 <= q < b.size() ==> #[trigger] b.list(p, q) == (if p == x && q
            == y {
            a.list(p, q).push(pair)
        } else {
            a.list(p, q)
        })
}

/// The successors of a pair of states are states, the smaller one first.
proof fn lemma_successors_range(d: DenseModel, x: int, y: int, k: int)
    requires
        d.closed(),
        0 <= x < d.states,
        0 <= y < d.states,
        0 <= k < d.alphabet.len(),
    ensures
        successors(d, (x as u128, y as u128), k).0 <= successors(d, (x as u128, y as u128), k).1,
        successors(d, (x as u128, y as u128), k).1 < d.states,
{
    assert(d.at(x, k) < d.states);
    assert(d.at(y, k) < d.states);
}

/// A pair whose successors in some column are told apart is told apart.
proof fn lemma_waiting_pair(d: DenseModel, pair: (u128, u128), x: int, y: int)
    requires
        d.wf(),
        waits_for(d, pair, x, y),
        d.distinguishable(x as u128, y as u128),
    ensures
        d.distinguishable(pair.0, pair.1),
{
    let k = choose|k: int|
        0 <= k < d.alphabet.len() && #[trigger] successors(d, pair, k) == (x as u128, y as u128);
    let a = d.at(pair.0 as int, k);
    let b = d.at(pair.1 as int, k);
    if a < b {
        let w = choose|w: Seq<u8>| #[trigger] d.tells_apart(w, a, b);
        d.lemma_step_tells_apart(pair.0, pair.1, k, w);
    } else {
        let w = choose|w: Seq<u8>| #[trigger] d.tells_apart(w, b, a);
        assert(d.tells_apart(w, a, b));
        d.lemma_step_tells_apart(pair.0, pair.1, k, w);
    }
}

/// Dropping a marked pair from the work keeps the table right.
proof fn lemma_work_skip(
    d: DenseModel,
    t: &PairTable,
    work: Seq<(u128, u128)>,
    row: int,
    col: int,
)
    requires
        d.wf(),
        table_inv(d, t, work, row, col),
        work.len() > 0,
        t.marked(work.last().0 as int, work.last().1 as int),
    ensures
        table_inv(d, t, work.drop_last(), row, col),
{
    let rest = work.drop_last();
    assert forall|x: int, y: int, k: int|
        0 <= x < y < d.states && before(x, y, row, col) && !t.marked(x, y) && 0 <= k
            < d.alphabet.len() implies #[trigger] settled(d, t, rest, x, y, k) by {
        assert(settled(d, t, work, x, y, k));
        crate::graph::lemma_drop_last_contains(work, (x as u128, y as u128));
    }
    assert forall|i: int| 0 <= i < rest.len() implies (#[trigger] rest[i]).0 < rest[i].1 < d.states
        && d.distinguishable(rest[i].0, rest[i].1) by {
        assert(rest[i] == work[i]);
    }
}

/// Marking the last pair of the work, and putting the pairs that waited for
/// it into the work, keeps the table right and leaves one unmarked pair
/// less.
proof fn lemma_work_visit(
    d: DenseModel,
    a: &PairTable,
    b: &PairTable,
    work: Seq<(u128, u128)>,
    row: int,
    col: int,
)
    requires
        d.wf(),
        d.closed(),
        table_inv(d, a, work, row, col),
        work.len() > 0,
        !a.marked(work.last().0 as int, work.last().1 as int),
        marked_from(a, b, work.last().0 as int, work.last().1 as int),
    ensures
        table_inv(
            d,
            b,
            work.drop_last() + a.list(work.last().0 as int, work.last().1 as int),
            row,
            col,
        ),
        count_rows(b.marks(), d.states as int, d.states as int) < count_rows(
            a.marks(),
            d.states as int,
            d.states as int,
        ),
{
    let n = d.states as int;
    let pair = work.last();
    let x = pair.0 as int;
    let y = pair.1 as int;
    let rest = work.drop_last();
    let waiting = a.list(x, y);
    let next = rest + waiting;
    assert(work[work.len() - 1] == pair);
    assert(0 <= x < y < n);
    assert(d.distinguishable(pair.0, pair.1));
    assert forall|p: int, q: int| 0 <= p < q < n && #[trigger] b.marked(p, q) implies d.distinguishable(
        p as u128,
        q as u128,
    ) by {
        if !(p == x && q == y) {
            assert(a.marked(p, q));
        }
    }
    assert forall|p: int, q: int, i: int| 0 <= p < q < n && 0 <= i < b.list(p, q).len() implies waits_for(
        d,
        #[trigger] b.list(p, q)[i],
        p,
        q,
    ) by {
        assert(b.list(p, q) == a.list(p, q));
        assert(waits_for(d, a.list(p, q)[i], p, q));
    }
    assert forall|p: int, q: int| 0 <= p < q < n && #[trigger] b.marked(p, q) implies b.list(
        p,
        q,
    ).len() == 0 by {
        if !(p == x && q == y) {
            assert(a.marked(p, q));
        }
    }
    assert forall|p: int, q: int|
        0 <= p < q < n && d.accept.contains(p as u128) != d.accept.contains(
            q as u128,
        ) implies #[trigger] b.marked(p, q) by {
        assert(a.marked(p, q));
    }
    assert forall|u: int, v: int, k: int|
        0 <= u < v < n && before(u, v, row, col) && !b.marked(u, v) && 0 <= k
            < d.alphabet.len() implies #[trigger] settled(d, b, next, u, v, k) by {
        assert(b.marked(u, v) == (a.marked(u, v) || (u == x && v == y)));
        assert(settled(d, a, work, u, v, k));
        let s = successors(d, (u as u128, v as u128), k);
        lemma_successors_range(d, u, v, k);
        let me = (u as u128, v as u128);
        if s.0 == s.1 {
        } else if !a.marked(s.0 as int, s.1 as int) && a.list(s.0 as int, s.1 as int).contains(me) {
            if s.0 == x && s.1 == y {
                let i = choose|i: int| 0 <= i < waiting.len() && waiting[i] == me;
                assert(next[rest.len() + i] == me);
            } else {
                assert(b.marked(s.0 as int, s.1 as int) == a.marked(s.0 as int, s.1 as int));
                assert(b.list(s.0 as int, s.1 as int) == a.list(s.0 as int, s.1 as int));
            }
        } else {
            assert(work.contains(me));
            crate::graph::lemma_drop_last_contains(work, me);
            let i = choose|i: int| 0 <= i < rest.len() && rest[i] == me;
            assert(next[i] == me);
        }
    }
    assert forall|i: int| 0 <= i < next.len() implies (#[trigger] next[i]).0 < next[i].1 < d.states
        && d.distinguishable(next[i].0, next[i].1) by {
        if i < rest.len() {
            assert(next[i] == work[i]);
        } else {
            let j = i - rest.len();
            assert(next[i] == waiting[j]);
            assert(waits_for(d, a.list(x, y)[j], x, y));
            lemma_waiting_pair(d, waiting[j], x, y);
        }
    }
    assert forall|i: int, j: int| 0 <= i < n && 0 <= j < n implies #[trigger] (b.marks())(i, j)
        == ((a.marks())(i, j) || (i == x && j == y)) by {
        assert(b.marked(i, j) == (a.marked(i, j) || (i == x && j == y)));
    }
    lemma_count_rows(a.marks(), b.marks(), x, y, n, n);
}

/// Noting that the pair `(row, col)` waits for its unmarked successors in
/// some column keeps the table right.
proof fn lemma_note_step(
    d: DenseModel,
    a: &PairTable,
    b: &PairTable,
    s: (u128, u128),
    row: int,
    col: int,
)
    requires
        d.wf(),
        d.closed(),
        table_inv(d, a, Seq::empty(), row, col),
        0 <= row < col < d.states,
        s.0 < s.1 < d.states,
        !a.marked(s.0 as int, s.1 as int),
        waits_for(d, (row as u128, col as u128), s.0 as int, s.1 as int),
        noted_from(a, b, s.0 as int, s.1 as int, (row as u128, col as u128)),
    ensures
        table_inv(d, b, Seq::empty(), row, col),
        b.list(s.0 as int, s.1 as int).contains((row as u128, col as u128)),
        forall|p: int, q: int, z: (u128, u128)|
            0 <= p < d.states && 0 <= q < d.states && a.list(p, q).contains(z) ==> #[trigger] b.list(
                p,
                q,
            ).contains(z),
{
    let n = d.states as int;
    let me = (row as u128, col as u128);
    let none = Seq::<(u128, u128)>::empty();
    assert forall|p: int, q: int, z: (u128, u128)|
        0 <= p < n && 0 <= q < n && a.list(p, q).contains(z) implies #[trigger] b.list(
        p,
        q,
    ).contains(z) by {
        crate::graph::lemma_push_contains(a.list(p, q), me, z);
    }
    assert(b.list(s.0 as int, s.1 as int).contains(me)) by {
        crate::graph::lemma_push_contains(a.list(s.0 as int, s.1 as int), me, me);
    }
    assert forall|p: int, q: int| 0 <= p < q < n && #[trigger] b.marked(p, q) implies d.distinguishable(
        p as u128,
        q as u128,
    ) by {
        assert(a.marked(p, q));
    }
    assert forall|p: int, q: int, i: int| 0 <= p < q < n && 0 <= i < b.list(p, q).len() implies waits_for(
        d,
        #[trigger] b.list(p, q)[i],
        p,
        q,
    ) by {
        if i < a.list(p, q).len() {
            assert(b.list(p, q)[i] == a.list(p, q)[i]);
            assert(waits_for(d, a.list(p, q)[i], p, q));
        }
    }
    assert forall|p: int, q: int| 0 <= p < q < n && #[trigger] b.marked(p, q) implies b.list(
        p,
        q,
    ).len() == 0 by {
        assert(a.marked(p, q));
    }
    assert forall|p: int, q: int|
        0 <= p < q < n && d.accept.contains(p as u128) != d.accept.contains(
            q as u128,
        ) implies #[trigger] b.marked(p, q) by {
        assert(a.marked(p, q));
    }
    assert forall|u: int, v: int, k: int|
        0 <= u < v < n && before(u, v, row, col) && !b.marked(u, v) && 0 <= k
            < d.alphabet.len() implies #[trigger] settled(d, b, none, u, v, k) by {
        assert(b.marked(u, v) == a.marked(u, v));
        assert(settled(d, a, none, u, v, k));
        let t = successors(d, (u as u128, v as u128), k);
        if t.0 != t.1 {
            assert(!none.contains((u as u128, v as u128)));
            lemma_successors_range(d, u, v, k);
            assert(a.list(t.0 as int, t.1 as int).contains((u as u128, v as u128)));
            assert(b.marked(t.0 as int, t.1 as int) == a.marked(t.0 as int, t.1 as int));
            assert(b.list(t.0 as int, t.1 as int).contains((u as u128, v as u128)));
        }
    }
}

/// Whether the table marks the pair `z`.
spec fn is_marked(t: &PairTable, z: (u128, u128)) -> bool {
    t.marked(z.0 as int, z.1 as int)
}

/// The pairs that wait for the pair `z`.
spec fn list_of(t: &PairTable, z: (u128, u128)) -> Seq<(u128, u128)> {
    t.list(z.0 as int, z.1 as int)
}

/// `walk` follows the lists of `t`: each pair of it waits for the pair
/// before it.
spec fn list_walk(t: &PairTable, walk: Seq<(u128, u128)>) -> bool {
    &&& walk.len() >= 1
    &&& forall|i: int| 0 <= i < walk.len() - 1 ==> list_of(t, #[trigger] walk[i]).contains(walk[i + 1])
}

/// `pair` is `from`, or waits for it, or waits for a pair that does, and so
/// on.
spec fn waits_on(t: &PairTable, from: (u128, u128), pair: (u128, u128)) -> bool {
    exists|walk: Seq<(u128, u128)>|
        list_walk(t, walk) && walk[0] == from && #[trigger] walk.last() == pair
}

/// What the marking of `from` and of what waits on it keeps true between
/// the table `t0` at its start and the table `t` now: no mark is lost; a new
/// mark stands on a pair that waits on `from`, and so does every pair in
/// `work`; the list of a newly marked pair is taken and every other list is
/// as it was; and what waited for a newly marked pair is marked or in
/// `work`.
spec fn spread(
    d: DenseModel,
    t0: &PairTable,
    t: &PairTable,
    work: Seq<(u128, u128)>,
    from: (u128, u128),
) -> bool {
    &&& forall|z: (u128, u128)| z.0 < z.1 < d.states && #[trigger] is_marked(t0, z) ==> is_marked(t, z)
    &&& forall|z: (u128, u128)|
        z.0 < z.1 < d.states && #[trigger] is_marked(t, z) && !is_marked(t0, z) ==> waits_on(
            t0,
            from,
            z,
        )
    &&& forall|i: int| 0 <= i < work.len() ==> waits_on(t0, from, #[trigger] work[i])
    &&& forall|z: (u128, u128)|
        z.0 < z.1 < d.states ==> #[trigger] list_of(t, z) == (if is_marked(t, z) && !is_marked(
            t0,
            z,
        ) {
            Seq::<(u128, u128)>::empty()
        } else {
            list_of(t0, z)
        })
    &&& forall|z: (u128, u128), k: int|
        z.0 < z.1 < d.states && is_marked(t, z) && !is_marked(t0, z) && 0 <= k < list_of(
            t0,
            z,
        ).len() ==> is_marked(t, #[trigger] list_of(t0, z)[k]) || work.contains(list_of(t0, z)[k])
}

/// A pair that waits for a pair that waits on `from` waits on `from`.
proof fn lemma_waits_step(t: &PairTable, from: (u128, u128), z: (u128, u128), next: (u128, u128))
    requires
        waits_on(t, from, z),
        list_of(t, z).contains(next),
    ensures
        waits_on(t, from, next),
{
    let walk = choose|walk: Seq<(u128, u128)>|
        list_walk(t, walk) && walk[0] == from && #[trigger] walk.last() == z;
    let longer = walk.push(next);
    assert forall|i: int| 0 <= i < longer.len() - 1 implies list_of(
        t,
        #[trigger] longer[i],
    ).contains(longer[i + 1]) by {
        if i < walk.len() - 1 {
            assert(list_of(t, walk[i]).contains(walk[i + 1]));
        }
    }
    assert(list_walk(t, longer) && longer[0] == from && longer.last() == next);
}

proof fn lemma_spread_start(d: DenseModel, t0: &PairTable, from: (u128, u128))
    ensures
        spread(d, t0, t0, seq![from], from),
{
    let walk = seq![from];
    assert(list_walk(t0, walk) && walk[0] == from && walk.last() == from);
    assert(seq![from][0] == from);
}

/// Dropping a marked pair from the work keeps the spread.
proof fn lemma_spread_skip(
    d: DenseModel,
    t0: &PairTable,
    t: &PairTable,
    work: Seq<(u128, u128)>,
    from: (u128, u128),
)
    requires
        spread(d, t0, t, work, from),
        work.len() > 0,
        is_marked(t, work.last()),
    ensures
        spread(d, t0, t, work.drop_last(), from),
{
    let rest = work.drop_last();
    assert forall|i: int| 0 <= i < rest.len() implies waits_on(t0, from, #[trigger] rest[i]) by {
        assert(rest[i] == work[i]);
    }
    assert forall|z: (u128, u128), k: int|
        z.0 < z.1 < d.states && is_marked(t, z) && !is_marked(t0, z) && 0 <= k < list_of(
            t0,
            z,
        ).len() implies is_marked(t, #[trigger] list_of(t0, z)[k]) || rest.contains(
        list_of(t0, z)[k],
    ) by {
        crate::graph::lemma_drop_last_contains(work, list_of(t0, z)[k]);
    }
}

/// Marking the last pair of the work, and putting what waited for it into
/// the work, keeps the spread.
proof fn lemma_spread_visit(
    d: DenseModel,
    t0: &PairTable,
    a: &PairTable,
    b: &PairTable,
    work: Seq<(u128, u128)>,
    from: (u128, u128),
)
    requires
        d.wf(),
        spread(d, t0, a, work, from),
        work.len() > 0,
        work.last().0 < work.last().1 < d.states,
        !is_marked(a, work.last()),
        marked_from(a, b, work.last().0 as int, work.last().1 as int),
        a.size() == d.states,
        lists_valid(d, t0),
    ensures
        spread(d, t0, b, work.drop_last() + list_of(a, work.last()), from),
{
    let n = d.states;
    let pair = work.last();
    let rest = work.drop_last();
    let waiting = list_of(a, pair);
    let next = rest + waiting;
    assert(work[work.len() - 1] == pair);
    assert(waits_on(t0, from, pair));
    assert(!is_marked(t0, pair));
    assert(waiting == list_of(t0, pair));
    assert forall|z: (u128, u128)| z.0 < z.1 < n implies is_marked(b, z) == (is_marked(a, z) || z
        == pair) && list_of(b, z) == (if z == pair {
        Seq::<(u128, u128)>::empty()
    } else {
        list_of(a, z)
    }) by {
        assert(b.marked(z.0 as int, z.1 as int) == (a.marked(z.0 as int, z.1 as int) || (z.0
            == pair.0 && z.1 == pair.1)));
        assert(b.list(z.0 as int, z.1 as int) == (if z.0 == pair.0 && z.1 == pair.1 {
            Seq::<(u128, u128)>::empty()
        } else {
            a.list(z.0 as int, z.1 as int)
        }));
    }
    assert forall|z: (u128, u128)| z.0 < z.1 < n && #[trigger] is_marked(t0, z) implies is_marked(
        b,
        z,
    ) by {
        assert(is_marked(a, z));
    }
    assert forall|z: (u128, u128)|
        z.0 < z.1 < n && #[trigger] is_marked(b, z) && !is_marked(t0, z) implies waits_on(
        t0,
        from,
        z,
    ) by {
        if z != pair {
            assert(is_marked(a, z));
        }
    }
    assert forall|i: int| 0 <= i < next.len() implies waits_on(t0, from, #[trigger] next[i]) by {
        if i < rest.len() {
            assert(next[i] == work[i]);
        } else {
            let j = i - rest.len();
            assert(next[i] == waiting[j]);
            assert(list_of(t0, pair).contains(waiting[j]));
            lemma_waits_step(t0, from, pair, waiting[j]);
        }
    }
    assert forall|z: (u128, u128)| z.0 < z.1 < n implies #[trigger] list_of(b, z) == (if is_marked(
        b,
        z,
    ) && !is_marked(t0, z) {
        Seq::<(u128, u128)>::empty()
    } else {
        list_of(t0, z)
    }) by {
        if z != pair {
            assert(list_of(a, z) == (if is_marked(a, z) && !is_marked(t0, z) {
                Seq::<(u128, u128)>::empty()
            } else {
                list_of(t0, z)
            }));
        }
    }
    assert forall|z: (u128, u128), k: int|
        z.0 < z.1 < n && is_marked(b, z) && !is_marked(t0, z) && 0 <= k < list_of(
            t0,
            z,
        ).len() implies is_marked(b, #[trigger] list_of(t0, z)[k]) || next.contains(
        list_of(t0, z)[k],
    ) by {
        let e = list_of(t0, z)[k];
        if z == pair {
            assert(next[rest.len() + k] == e);
        } else {
            assert(is_marked(a, z));
            assert(is_marked(a, e) || work.contains(e));
            assert(waits_for(d, t0.list(z.0 as int, z.1 as int)[k], z.0 as int, z.1 as int));
            if is_marked(a, e) {
                lemma_marks_kept(d, a, b, pair, e);
            } else {
                crate::graph::lemma_drop_last_contains(work, e);
                if e == pair {
                    assert(b.marked(pair.0 as int, pair.1 as int));
                } else {
                    let i = choose|i: int| 0 <= i < rest.len() && rest[i] == e;
                    assert(next[i] == e);
                }
            }
        }
    }
}

/// A pair that waits for a pair is a pair of states of the table, where the
/// lists are valid; and a mark on it is kept by one mark more.
proof fn lemma_marks_kept(
    d: DenseModel,
    a: &PairTable,
    b: &PairTable,
    pair: (u128, u128),
    e: (u128, u128),
)
    requires
        is_marked(a, e),
        forall|p: int, q: int|
            0 <= p < b.size() && 0 <= q < b.size() ==> #[trigger] b.marked(p, q) == (a.marked(p, q)
                || (p == pair.0 && q == pair.1)),
        e.0 < b.size(),
        e.1 < b.size(),
    ensures
        is_marked(b, e),
{
    assert(b.marked(e.0 as int, e.1 as int) == (a.marked(e.0 as int, e.1 as int) || (e.0
        == pair.0 && e.1 == pair.1)));
}

/// When no pair is left in the work, the marks are those from before and
/// those on the pairs that wait on `from`.
proof fn lemma_spread_done(
    d: DenseModel,
    t0: &PairTable,
    t: &PairTable,
    from: (u128, u128),
    z: (u128, u128),
)
    requires
        d.wf(),
        lists_valid(d, t0),
        marked_clean(d, t0),
        t0.size() == d.states,
        spread(d, t0, t, Seq::empty(), from),
        from.0 < from.1 < d.states,
        is_marked(t, from),
        z.0 < z.1 < d.states,
    ensures
        is_marked(t, z) == (is_marked(t0, z) || waits_on(t0, from, z)),
{
    if waits_on(t0, from, z) {
        let walk = choose|walk: Seq<(u128, u128)>|
            list_walk(t0, walk) && walk[0] == from && #[trigger] walk.last() == z;
        lemma_walk_marked(d, t0, t, from, walk, walk.len() - 1);
    }
}

/// Every pair of a walk from `from` is marked in the end.
proof fn lemma_walk_marked(
    d: DenseModel,
    t0: &PairTable,
    t: &PairTable,
    from: (u128, u128),
    walk: Seq<(u128, u128)>,
    i: int,
)
    requires
        d.wf(),
        lists_valid(d, t0),
        marked_clean(d, t0),
        t0.size() == d.states,
        spread(d, t0, t, Seq::empty(), from),
        from.0 < from.1 < d.states,
        is_marked(t, from),
        list_walk(t0, walk),
        walk[0] == from,
        0 <= i < walk.len(),
    ensures
        walk[i].0 < walk[i].1 < d.states,
        is_marked(t, walk[i]),
    decreases i,
{
    if i > 0 {
        lemma_walk_marked(d, t0, t, from, walk, i - 1);
        let z = walk[i - 1];
        let e = walk[i - 1 + 1];
        assert(list_of(t0, z).contains(e));
        let k = choose|k: int| 0 <= k < list_of(t0, z).len() && list_of(t0, z)[k] == e;
        assert(waits_for(d, t0.list(z.0 as int, z.1 as int)[k], z.0 as int, z.1 as int));
        if is_marked(t0, z) {
            assert(t0.marked(z.0 as int, z.1 as int));
            assert(t0.list(z.0 as int, z.1 as int).len() == 0);
        } else {
            assert(is_marked(t, list_of(t0, z)[k]) || Seq::<(u128, u128)>::empty().contains(
                list_of(t0, z)[k],
            ));
        }
    }
}

/// A pair that some word tells apart may be put into the empty work.
proof fn lemma_work_start(d: DenseModel, t: &PairTable, pair: (u128, u128), row: int, col: int)
    requires
        table_inv(d, t, Seq::empty(), row, col),
        pair.0 < pair.1 < d.states,
        d.distinguishable(pair.0, pair.1),
    ensures
        table_inv(d, t, seq![pair], row, col),
        seq![pair].contains(pair),
{
    let none = Seq::<(u128, u128)>::empty();
    let work = seq![pair];
    assert(work[0] == pair);
    assert forall|x: int, y: int, k: int|
        0 <= x < y < d.states && before(x, y, row, col) && !t.marked(x, y) && 0 <= k
            < d.alphabet.len() implies #[trigger] settled(d, t, work, x, y, k) by {
        assert(settled(d, t, none, x, y, k));
        assert(!none.contains((x as u128, y as u128)));
    }
}

/// States that the filled table does not mark behave alike on every word.
proof fn lemma_same_behaviour(d: DenseModel, t: &PairTable, x: u128, y: u128, w: Seq<u8>)
    requires
        d.wf(),
        d.closed(),
        table_inv(d, t, Seq::empty(), d.states as int, 0),
        x < d.states,
        y < d.states,
        x == y || !t.marked(ordered(x, y).0 as int, ordered(x, y).1 as int),
        d.word(w),
    ensures
        d.accepts_from(x, w) == d.accepts_from(y, w),
    decreases w.len(),
{
    let none = Seq::<(u128, u128)>::empty();
    if x != y {
        let u = ordered(x, y).0;
        let v = ordered(x, y).1;
        if w.len() == 0 {
            if d.accept.contains(u) != d.accept.contains(v) {
                assert(t.marked(u as int, v as int));
            }
        } else {
            let a = w[0];
            crate::dense::lemma_first_index_range(d.alphabet, a);
            let k = d.column(a);
            assert(d.alphabet.contains(a));
            assert(before(u as int, v as int, d.states as int, 0));
            assert(settled(d, t, none, u as int, v as int, k));
            let s = successors(d, (u, v), k);
            lemma_successors_range(d, u as int, v as int, k);
            let rest = w.drop_first();
            assert forall|i: int| 0 <= i < rest.len() implies d.alphabet.contains(
                #[trigger] rest[i],
            ) by {
                assert(rest[i] == w[i + 1]);
            }
            let x1 = d.next(x, a);
            let y1 = d.next(y, a);
            assert(ordered(x1, y1) == s);
            assert(!none.contains((u, v)));
            lemma_same_behaviour(d, t, x1, y1, rest);
        }
    }
}

/// After the filling, the marked pairs are the pairs that some word tells
/// apart.
proof fn lemma_marks_exact(d: DenseModel, t: &PairTable, p: int, q: int)
    requires
        d.wf(),
        d.closed(),
        table_inv(d, t, Seq::empty(), d.states as int, 0),
        0 <= p < q < d.states,
    ensures
        t.marked(p, q) == d.distinguishable(p as u128, q as u128),
{
    if !t.marked(p, q) && d.distinguishable(p as u128, q as u128) {
        let w = choose|w: Seq<u8>| #[trigger] d.tells_apart(w, p as u128, q as u128);
        lemma_same_behaviour(d, t, p as u128, q as u128, w);
    }
}

impl PairTable {
    /// Marks the two states as told apart, and with them every pair that
    /// waits for a pair that gets marked: no mark is lost, and the new marks
    /// stand on the pairs that wait on the pair of the two states.
    fn distinguish(
        &mut self,
        state1: u128,
        state2: u128,
        Ghost(d): Ghost<DenseModel>,
        Ghost(row): Ghost<int>,
        Ghost(col): Ghost<int>,
    )
        requires
            d.wf(),
            d.closed(),
            table_inv(d, old(self), Seq::empty(), row, col),
            state1 < d.states,
            state2 < d.states,
            state1 != state2,
            d.distinguishable(ordered(state1, state2).0, ordered(state1, state2).1),
        ensures
            table_inv(d, final(self), Seq::empty(), row, col),
            final(self).marked(ordered(state1, state2).0 as int, ordered(state1, state2).1 as int),
            forall|z: (u128, u128)|
                z.0 < z.1 < d.states ==> #[trigger] is_marked(final(self), z) == (is_marked(
                    old(self),
                    z,
                ) || waits_on(old(self), ordered(state1, state2), z)),
            forall|z: (u128, u128)|
                z.0 < z.1 < d.states ==> #[trigger] list_of(final(self), z) == (if is_marked(
                    final(self),
                    z,
                ) && !is_marked(old(self), z) {
                    Seq::<(u128, u128)>::empty()
                } else {
                    list_of(old(self), z)
                }),
    {
        let pair: (u128, u128) = order_pair(state1, state2);
        let mut work: Vec<(u128, u128)> = Vec::new();
        work.push(pair);
        let ghost at_start = *self;
        proof {
            lemma_work_start(d, self, pair, row, col);
            assert(work@ =~= seq![pair]);
            lemma_spread_start(d, &at_start, pair);
        }
        while work.len() > 0
            invariant
                d.wf(),
                d.closed(),
                pair.0 < pair.1 < d.states,
                table_inv(d, self, work@, row, col),
                self.marked(pair.0 as int, pair.1 as int) || work@.contains(pair),
                spread(d, &at_start, self, work@, pair),
                lists_valid(d, &at_start),
                marked_clean(d, &at_start),
                at_start.size() == d.states,
            decreases count_rows(self.marks(), d.states as int, d.states as int), work@.len(),
        {
            let ghost work0 = work@;
            let ghost before_mark = *self;
            let current: (u128, u128) = work.pop().unwrap();
            proof {
                assert(work@ =~= work0.drop_last());
                assert(work0[work0.len() - 1] == current);
                crate::graph::lemma_drop_last_contains(work0, pair);
            }
            if self.is_distinguishable(current.0, current.1) {
                proof {
                    lemma_work_skip(d, self, work0, row, col);
                    lemma_spread_skip(d, &at_start, self, work0, pair);
                }
                continue ;
            }
            let mut waiting: Vec<(u128, u128)> = self.mark(current.0, current.1);
            work.append(&mut waiting);
            proof {
                lemma_work_visit(d, &before_mark, self, work0, row, col);
                lemma_spread_visit(d, &at_start, &before_mark, self, work0, pair);
                let rest = work0.drop_last();
                let list = before_mark.list(current.0 as int, current.1 as int);
                assert(work@ =~= rest + list);
                if rest.contains(pair) {
                    let i = choose|i: int| 0 <= i < rest.len() && rest[i] == pair;
                    assert(work@[i] == pair);
                }
            }
        }
        proof {
            assert(work@ =~= Seq::empty());
            assert forall|z: (u128, u128)| z.0 < z.1 < d.states implies #[trigger] is_marked(self, z)
                == (is_marked(&at_start, z) || waits_on(&at_start, pair, z)) by {
                lemma_spread_done(d, &at_start, self, pair, z);
            }
        }
    }
}

/// Marks every pair of an accept state and another state.
fn mark_accept_pairs<D: CompletedDfa>(table: &mut PairTable, dfa: &D, Ghost(d): Ghost<DenseModel>)
    requires
        tabulates(dfa, d),
        old(table).wf(),
        old(table).size() == d.states,
        forall|p: int, q: int|
            0 <= p < d.states && 0 <= q < d.states ==> !(#[trigger] old(table).marked(p, q)),
        forall|p: int, q: int|
            0 <= p < d.states && 0 <= q < d.states ==> (#[trigger] old(table).list(
                p,
                q,
            )).len() == 0,
    ensures
        table_inv(d, final(table), Seq::empty(), 0, 0),
{
    let n: u128 = dfa.number_of_states();
    let accept = dfa.accept_states();
    let mut a: u128 = 0;
    while a < n
        invariant
            a <= n,
            n == d.states,
            tabulates(dfa, d),
            d.wf(),
            accept@ == d.accept,
            table.wf(),
            table.size() == n,
            forall|p: int, q: int|
                0 <= p < n && 0 <= q < n ==> (#[trigger] table.list(p, q)).len() == 0,
            forall|p: int, q: int|
                0 <= p < q < n && #[trigger] table.marked(p, q) ==> d.accept.contains(p as u128)
                    != d.accept.contains(q as u128),
            forall|p: int, q: int|
                0 <= p < q < n && ((d.accept.contains(p as u128) && !d.accept.contains(q as u128)
                    && p < a) || (d.accept.contains(q as u128) && !d.accept.contains(p as u128)
                    && q < a)) ==> #[trigger] table.marked(p, q),
        decreases n - a,
    {
        if accept.contains(&a) {
            let mut b: u128 = 0;
            while b < n
                invariant
                    b <= n,
                    a < n,
                    n == d.states,
                    d.wf(),
                    accept@ == d.accept,
                    d.accept.contains(a),
                    table.wf(),
                    table.size() == n,
                    forall|p: int, q: int|
                        0 <= p < n && 0 <= q < n ==> (#[trigger] table.list(p, q)).len() == 0,
                    forall|p: int, q: int|
                        0 <= p < q < n && #[trigger] table.marked(p, q) ==> d.accept.contains(
                            p as u128,
                        ) != d.accept.contains(q as u128),
                    forall|p: int, q: int|
                        0 <= p < q < n && ((d.accept.contains(p as u128) && !d.accept.contains(
                            q as u128,
                        ) && (p < a || (p == a && q < b))) || (d.accept.contains(q as u128)
                            && !d.accept.contains(p as u128) && (q < a || (q == a && p < b))))
                            ==> #[trigger] table.marked(p, q),
                decreases n - b,
            {
                if !accept.contains(&b) {
                    let pair: (u128, u128) = order_pair(a, b);
                    let ghost before_mark = *table;
                    let _ = table.mark(pair.0, pair.1);
                    proof {
                        assert forall|p: int, q: int| 0 <= p < n && 0 <= q < n implies (
                        #[trigger] table.list(p, q)).len() == 0 by {
                            assert(before_mark.list(p, q).len() == 0);
                        }
                        assert forall|p: int, q: int|
                            0 <= p < q < n && #[trigger] table.marked(
                                p,
                                q,
                            ) implies d.accept.contains(p as u128) != d.accept.contains(
                            q as u128,
                        ) by {
                            if !(p == pair.0 && q == pair.1) {
                                assert(before_mark.marked(p, q));
                            }
                        }
                        assert forall|p: int, q: int|
                            0 <= p < q < n && ((d.accept.contains(p as u128) && !d.accept.contains(
                                q as u128,
                            ) && (p < a || (p == a && q < b + 1))) || (d.accept.contains(q as u128)
                                && !d.accept.contains(p as u128) && (q < a || (q == a && p < b
                                + 1)))) implies #[trigger] table.marked(p, q) by {
                            if !(p == pair.0 && q == pair.1) {
                                assert(before_mark.marked(p, q));
                            }
                        }
                    }
                }
                b += 1;
            }
        }
        a += 1;
    }
    proof {
        let none = Seq::<(u128, u128)>::empty();
        let word = Seq::<u8>::empty();
        assert forall|p: int, q: int| 0 <= p < q < n && #[trigger] table.marked(
            p,
            q,
        ) implies d.distinguishable(p as u128, q as u128) by {
            assert(d.tells_apart(word, p as u128, q as u128));
        }
        assert forall|p: int, q: int, i: int|
            0 <= p < q < n && 0 <= i < table.list(p, q).len() implies waits_for(
            d,
            #[trigger] table.list(p, q)[i],
            p,
            q,
        ) by {}
        assert(closure(d, table, none, 0, 0));
        assert(work_valid(d, none));
    }
}

/// What the scan of the columns of one pair has gathered: every successor
/// pair in `temp` is an unmarked pair that `(p, q)` leads to.
spec fn gathered(d: DenseModel, t: &PairTable, temp: Seq<(u128, u128)>, p: u128, q: u128) -> bool {
    forall|i: int|
        0 <= i < temp.len() ==> (#[trigger] temp[i]).0 < temp[i].1 < d.states && !t.marked(
            temp[i].0 as int,
            temp[i].1 as int,
        ) && waits_for(d, (p, q), temp[i].0 as int, temp[i].1 as int)
}

/// The columns below `upto` lead `(p, q)` to one state or to a pair of
/// `temp`.
spec fn columns_seen(d: DenseModel, temp: Seq<(u128, u128)>, p: u128, q: u128, upto: int) -> bool {
    forall|k: int|
        0 <= k < upto ==> (#[trigger] successors(d, (p, q), k)).0 == successors(d, (p, q), k).1
            || temp.contains(successors(d, (p, q), k))
}

/// Once `(p, q)` waits for every pair that it leads to, the scan may pass
/// it.
proof fn lemma_pass_unmarked(d: DenseModel, t: &PairTable, temp: Seq<(u128, u128)>, p: u128, q: u128)
    requires
        d.wf(),
        p < q < d.states,
        table_inv(d, t, Seq::empty(), p as int, q as int),
        columns_seen(d, temp, p, q, d.alphabet.len() as int),
        forall|i: int|
            0 <= i < temp.len() ==> !t.marked((#[trigger] temp[i]).0 as int, temp[i].1 as int)
                && t.list(temp[i].0 as int, temp[i].1 as int).contains((p, q)),
    ensures
        table_inv(d, t, Seq::empty(), p as int, q + 1),
{
    let none = Seq::<(u128, u128)>::empty();
    let me = (p, q);
    assert forall|x: int, y: int, k: int|
        0 <= x < y < d.states && before(x, y, p as int, q + 1) && !t.marked(x, y) && 0 <= k
            < d.alphabet.len() implies #[trigger] settled(d, t, none, x, y, k) by {
        if before(x, y, p as int, q as int) {
            assert(settled(d, t, none, x, y, k));
        } else {
            assert(x == p && y == q);
            let s = successors(d, me, k);
            if s.0 != s.1 {
                assert(temp.contains(s));
                let i = choose|i: int| 0 <= i < temp.len() && temp[i] == s;
                assert(!t.marked(temp[i].0 as int, temp[i].1 as int));
            }
        }
    }
}

/// The scan may pass a marked pair.
proof fn lemma_pass_marked(d: DenseModel, t: &PairTable, row: int, col: int)
    requires
        table_inv(d, t, Seq::empty(), row, col),
        t.marked(row, col),
    ensures
        table_inv(d, t, Seq::empty(), row, col + 1),
{
    let none = Seq::<(u128, u128)>::empty();
    assert forall|x: int, y: int, k: int|
        0 <= x < y < d.states && before(x, y, row, col + 1) && !t.marked(x, y) && 0 <= k
            < d.alphabet.len() implies #[trigger] settled(d, t, none, x, y, k) by {
        assert(before(x, y, row, col));
        assert(settled(d, t, none, x, y, k));
    }
}

/// The scan may move from the end of one row to the start of the next, and
/// from the start of a row to its first pair.
proof fn lemma_pass_row(d: DenseModel, t: &PairTable, row: int, col: int, next_row: int, next_col: int)
    requires
        table_inv(d, t, Seq::empty(), row, col),
        forall|x: int, y: int|
            0 <= x < y < d.states && before(x, y, next_row, next_col) ==> before(x, y, row, col),
    ensures
        table_inv(d, t, Seq::empty(), next_row, next_col),
{
    let none = Seq::<(u128, u128)>::empty();
    assert forall|x: int, y: int, k: int|
        0 <= x < y < d.states && before(x, y, next_row, next_col) && !t.marked(x, y) && 0 <= k
            < d.alphabet.len() implies #[trigger] settled(d, t, none, x, y, k) by {
        assert(before(x, y, row, col));
        assert(settled(d, t, none, x, y, k));
    }
}

/// The successor of `state` in column `column`.
pub fn successor(dfa: &DenseDFA, state: u128, column: usize) -> (r: u128)
    requires
        dfa.wf(),
        dfa@.closed(),
        state < dfa@.states,
        column < dfa@.alphabet.len(),
    ensures
        r == dfa@.at(state as int, column as int),
        r < dfa@.states,
{
    proof {
        crate::traits::lemma_dense_tabulates(dfa);
    }
    successor_on(dfa, dfa.alphabet(), state, column, Ghost(dfa@))
}

/// The successor of `state` on the symbol of column `column` of the table
/// of `dfa`.
fn successor_on<D: CompletedDfa>(
    dfa: &D,
    symbols: &Vec<u8>,
    state: u128,
    column: usize,
    Ghost(d): Ghost<DenseModel>,
) -> (r: u128)
    requires
        tabulates(dfa, d),
        symbols@ == d.alphabet,
        state < d.states,
        column < d.alphabet.len(),
    ensures
        r == d.at(state as int, column as int),
        r < d.states,
{
    assert(dfa.successor(state, d.alphabet[column as int]) == Ok::<u128, crate::dfa::DeltaError>(
        d.at(state as int, column as int),
    ));
    assert(d.at(state as int, column as int) < d.states);
    match dfa.delta(state, symbols[column]) {
        Ok(to) => to,
        Err(_) => 0,
    }
}

/// Scans the pair `(p, q)`: it is marked if some column leads it to a
/// marked pair, and else it waits for every pair that it leads to.
fn scan_pair<D: CompletedDfa>(
    table: &mut PairTable,
    dfa: &D,
    symbols: &Vec<u8>,
    p: u128,
    q: u128,
    Ghost(d): Ghost<DenseModel>,
)
    requires
        tabulates(dfa, d),
        symbols@ == d.alphabet,
        p < q < d.states,
        table_inv(d, old(table), Seq::empty(), p as int, q as int),
    ensures
        table_inv(d, final(table), Seq::empty(), p as int, q + 1),
{
    if table.is_distinguishable(p, q) {
        proof {
            lemma_pass_marked(d, table, p as int, q as int);
        }
        return ;
    }
    let len: usize = symbols.len();
    let mut temp: Vec<(u128, u128)> = Vec::new();
    let mut found: bool = false;
    let mut k: usize = 0;
    while k < len && !found
        invariant
            k <= len,
            len == d.alphabet.len(),
            tabulates(dfa, d),
            symbols@ == d.alphabet,
            d.wf(),
            d.closed(),
            p < q < d.states,
            table.wf(),
            table.size() == d.states,
            sound(d, table),
            gathered(d, table, temp@, p, q),
            !found ==> columns_seen(d, temp@, p, q, k as int),
            found ==> d.distinguishable(p, q),
        decreases len - k, (if found {
                0int
            } else {
                1int
            }),
    {
        let to1: u128 = successor_on(dfa, symbols, p, k, Ghost(d));
        let to2: u128 = successor_on(dfa, symbols, q, k, Ghost(d));
        let ghost seen = temp@;
        if to1 != to2 {
            let s: (u128, u128) = order_pair(to1, to2);
            assert(s == successors(d, (p, q), k as int));
            if table.is_distinguishable(s.0, s.1) {
                found = true;
                proof {
                    assert(d.distinguishable(s.0, s.1));
                    assert(waits_for(d, (p, q), s.0 as int, s.1 as int));
                    lemma_waiting_pair(d, (p, q), s.0 as int, s.1 as int);
                }
            } else {
                temp.push(s);
                proof {
                    assert(waits_for(d, (p, q), s.0 as int, s.1 as int));
                    assert forall|i: int| 0 <= i < temp@.len() implies (#[trigger] temp@[i]).0
                        < temp@[i].1 < d.states && !table.marked(
                        temp@[i].0 as int,
                        temp@[i].1 as int,
                    ) && waits_for(d, (p, q), temp@[i].0 as int, temp@[i].1 as int) by {
                        if i < seen.len() {
                            assert(temp@[i] == seen[i]);
                        }
                    }
                }
            }
        }
        proof {
            if !found {
                assert forall|j: int| 0 <= j < k + 1 implies (#[trigger] successors(
                    d,
                    (p, q),
                    j,
                )).0 == successors(d, (p, q), j).1 || temp@.contains(successors(d, (p, q), j)) by {
                    let t = successors(d, (p, q), j);
                    if j < k {
                        if t.0 != t.1 {
                            assert(seen.contains(t));
                            crate::graph::lemma_push_contains(seen, ordered(to1, to2), t);
                        }
                    } else if to1 != to2 {
                        crate::graph::lemma_push_contains(seen, t, t);
                    }
                }
            }
        }
        if !found {
            k += 1;
        }
    }
    if found {
        table.distinguish(p, q, Ghost(d), Ghost(p as int), Ghost(q as int));
        proof {
            lemma_pass_marked(d, table, p as int, q as int);
        }
        return ;
    }
    let mut i: usize = 0;
    while i < temp.len()
        invariant
            i <= temp.len(),
            tabulates(dfa, d),
            d.wf(),
            d.closed(),
            p < q < d.states,
            table_inv(d, table, Seq::empty(), p as int, q as int),
            gathered(d, table, temp@, p, q),
            forall|j: int|
                0 <= j < i ==> table.list((#[trigger] temp@[j]).0 as int, temp@[j].1 as int).contains(
                    (p, q),
                ),
        decreases temp.len() - i,
    {
        let s: (u128, u128) = temp[i];
        let ghost before_note = *table;
        assert(temp@[i as int].0 < temp@[i as int].1 < d.states);
        table.note(s.0, s.1, (p, q));
        proof {
            lemma_note_step(d, &before_note, table, s, p as int, q as int);
            assert forall|j: int| 0 <= j < temp@.len() implies (#[trigger] temp@[j]).0 < temp@[j].1
                < d.states && !table.marked(temp@[j].0 as int, temp@[j].1 as int) && waits_for(
                d,
                (p, q),
                temp@[j].0 as int,
                temp@[j].1 as int,
            ) by {
                assert(!before_note.marked(temp@[j].0 as int, temp@[j].1 as int));
            }
            assert forall|j: int| 0 <= j < i + 1 implies table.list(
                (#[trigger] temp@[j]).0 as int,
                temp@[j].1 as int,
            ).contains((p, q)) by {
                if j < i {
                    assert(before_note.list(temp@[j].0 as int, temp@[j].1 as int).contains((p, q)));
                    assert(table.list(temp@[j].0 as int, temp@[j].1 as int).contains((p, q)));
                }
            }
        }
        i += 1;
    }
    proof {
        assert forall|j: int| 0 <= j < temp@.len() implies !table.marked(
            (#[trigger] temp@[j]).0 as int,
            temp@[j].1 as int,
        ) && table.list(temp@[j].0 as int, temp@[j].1 as int).contains((p, q)) by {}
        assert(columns_seen(d, temp@, p, q, d.alphabet.len() as int));
        lemma_pass_unmarked(d, table, temp@, p, q);
    }
}

/// Scans every pair of states, in the ascending order of the pairs.
fn fill_table<D: CompletedDfa>(table: &mut PairTable, dfa: &D, Ghost(d): Ghost<DenseModel>)
    requires
        tabulates(dfa, d),
        table_inv(d, old(table), Seq::empty(), 0, 0),
    ensures
        table_inv(d, final(table), Seq::empty(), d.states as int, 0),
{
    let n: u128 = dfa.number_of_states();
    let symbols: Vec<u8> = dfa.alphabet().to_iter();
    let mut p: u128 = 0;
    while p < n
        invariant
            p <= n,
            n == d.states,
            tabulates(dfa, d),
            symbols@ == d.alphabet,
            d.closed(),
            table_inv(d, table, Seq::empty(), p as int, 0),
        decreases n - p,
    {
        let mut q: u128 = p + 1;
        proof {
            lemma_pass_row(d, table, p as int, 0, p as int, p + 1);
        }
        while q < n
            invariant
                p < q <= n,
                n == d.states,
                tabulates(dfa, d),
                symbols@ == d.alphabet,
                d.closed(),
                table_inv(d, table, Seq::empty(), p as int, q as int),
            decreases n - q,
        {
            scan_pair(table, dfa, &symbols, p, q, Ghost(d));
            q += 1;
        }
        proof {
            lemma_pass_row(d, table, p as int, n as int, p + 1, 0);
        }
        p += 1;
    }
}

/// The position of the first group of `groups` that holds `x`, or the
/// number of groups if none does.
pub open spec fn group_index(groups: Seq<Set<u128>>, x: u128) -> int
    decreases groups.len(),
{
    if groups.len() == 0 {
        0
    } else if groups[0].contains(x) {
        0
    } else {
        1 + group_index(groups.drop_first(), x)
    }
}

/// A group that holds `x` while no group before it does is the first group of `x`.
pub proof fn lemma_group_index(groups: Seq<Set<u128>>, x: u128, i: int)
    requires
        0 <= i <= groups.len(),
        forall|j: int| 0 <= j < i ==> !(#[trigger] groups[j]).contains(x),
        i < groups.len() ==> groups[i].contains(x),
    ensures
        group_index(groups, x) == i,
    decreases groups.len(),
{
    if groups.len() > 0 && i > 0 {
        let rest = groups.drop_first();
        assert(!groups[0].contains(x));
        assert forall|j: int| 0 <= j < i - 1 implies !(#[trigger] rest[j]).contains(x) by {
            assert(rest[j] == groups[j + 1]);
        }
        lemma_group_index(rest, x, i - 1);
    }
}

/// The first group of `x` holds `x`, if there is one, and no group before it does.
pub proof fn lemma_group_index_range(groups: Seq<Set<u128>>, x: u128)
    ensures
        0 <= group_index(groups, x) <= groups.len(),
        group_index(groups, x) < groups.len() ==> groups[group_index(groups, x)].contains(x),
        forall|j: int| 0 <= j < group_index(groups, x) ==> !(#[trigger] groups[j]).contains(x),
    decreases groups.len(),
{
    if groups.len() > 0 && !groups[0].contains(x) {
        let rest = groups.drop_first();
        lemma_group_index_range(rest, x);
        assert forall|j: int| 0 <= j < group_index(groups, x) implies !(#[trigger] groups[j]).contains(
            x,
        ) by {
            if j > 0 {
                assert(groups[j] == rest[j - 1]);
            }
        }
    }
}

/// The number of states in all the groups together.
pub open spec fn total_size(groups: Seq<Set<u128>>) -> nat
    decreases groups.len(),
{
    if groups.len() == 0 {
        0
    } else {
        total_size(groups.drop_last()) + groups.last().len()
    }
}

/// The groups as sets: each group with its states in no order.
pub open spec fn sets_of(groups: Seq<Seq<u128>>) -> Seq<Set<u128>> {
    Seq::new(groups.len(), |i: int| groups[i].to_set())
}

/// The groups after the pair of `state1` and `state2` was put in: if both
/// have a group, the two groups become one, which is put last; if one has a
/// group, the other joins it; if none has, the two form a new group, which
/// is put last.
pub open spec fn inserted(groups: Seq<Set<u128>>, state1: u128, state2: u128) -> Seq<Set<u128>> {
    let a = ordered(state1, state2).0;
    let b = ordered(state1, state2).1;
    let i = group_index(groups, a);
    let j = group_index(groups, b);
    if i < groups.len() && j < groups.len() {
        if i == j {
            groups
        } else if i < j {
            groups.remove(j).remove(i).push(groups[i].union(groups[j]))
        } else {
            groups.remove(i).remove(j).push(groups[i].union(groups[j]))
        }
    } else if i < groups.len() {
        groups.update(i, groups[i].insert(b))
    } else if j < groups.len() {
        groups.update(j, groups[j].insert(a))
    } else {
        groups.push(set![a, b])
    }
}

/// The groups of states that no word tells apart; a state that stands
/// alone has no group.
#[derive(Debug)]
pub struct IndistinGroups {
    groups: Vec<HashSet<u128>>,
}

impl View for IndistinGroups {
    type V = Seq<Set<u128>>;

    closed spec fn view(&self) -> Seq<Set<u128>> {
        Seq::new(self.groups@.len(), |i: int| self.groups@[i]@)
    }
}

/// Puts the states of `other` into `group`.
fn extend_group(group: &mut HashSet<u128>, other: &HashSet<u128>)
    ensures
        final(group)@ == old(group)@.union(other@),
{
    let all: Vec<u128> = crate::dfa::members(other);
    let mut k: usize = 0;
    while k < all.len()
        invariant
            k <= all.len(),
            group@ == old(group)@.union(all@.take(k as int).to_set()),
        decreases all.len() - k,
    {
        let ghost before = group@;
        group.insert(all[k]);
        proof {
            assert(all@.take(k + 1) =~= all@.take(k as int).push(all@[k as int]));
            assert(group@ =~= old(group)@.union(all@.take(k + 1).to_set())) by {
                assert forall|x: u128| group@.contains(x) <==> old(group)@.union(
                    all@.take(k + 1).to_set(),
                ).contains(x) by {
                    crate::graph::lemma_push_contains(all@.take(k as int), all@[k as int], x);
                }
            }
        }
        k += 1;
    }
    assert(all@.take(all@.len() as int) =~= all@);
}

impl IndistinGroups {
    /// No groups.
    pub fn new() -> (r: IndistinGroups)
        ensures
            r@ == Seq::<Set<u128>>::empty(),
    {
        let r = IndistinGroups { groups: Vec::new() };
        assert(r@ =~= Seq::<Set<u128>>::empty());
        r
    }

    /// The position of the first group that holds `state`, if there is one.
    pub fn contains_at(&self, state: u128) -> (r: Option<usize>)
        ensures
            match r {
                Some(i) => i == group_index(self@, state) && i < self@.len(),
                None => group_index(self@, state) == self@.len(),
            },
    {
        let mut i: usize = 0;
        while i < self.groups.len()
            invariant
                i <= self.groups.len(),
                self@.len() == self.groups@.len(),
                forall|j: int| 0 <= j < i ==> !(#[trigger] self@[j]).contains(state),
            decreases self.groups.len() - i,
        {
            if self.groups[i].contains(&state) {
                proof {
                    assert(self@[i as int] == self.groups@[i as int]@);
                    lemma_group_index(self@, state, i as int);
                }
                return Some(i);
            }
            assert(self@[i as int] == self.groups@[i as int]@);
            i += 1;
        }
        proof {
            lemma_group_index(self@, state, i as int);
        }
        None
    }

    /// Puts in that no word tells `state1` from `state2`: see [`inserted`].
    pub fn insert_pair(&mut self, state1: u128, state2: u128)
        ensures
            final(self)@ == inserted(old(self)@, state1, state2),
    {
        let pair: (u128, u128) = order_pair(state1, state2);
        let index1: Option<usize> = self.contains_at(pair.0);
        let index2: Option<usize> = self.contains_at(pair.1);
        let ghost before = self@;
        match (index1, index2) {
            (Some(i), Some(j)) => {
                if i != j {
                    let mut group1: HashSet<u128> = HashSet::new();
                    let mut group2: HashSet<u128> = HashSet::new();
                    if i < j {
                        group2 = self.groups.remove(j);
                        group1 = self.groups.remove(i);
                    } else {
                        group1 = self.groups.remove(i);
                        group2 = self.groups.remove(j);
                    }
                    extend_group(&mut group1, &group2);
                    self.groups.push(group1);
                    assert(self@ =~= inserted(before, state1, state2));
                }
            },
            (Some(i), None) => {
                self.groups[i].insert(pair.1);
                assert(self@ =~= inserted(before, state1, state2));
            },
            (None, Some(j)) => {
                self.groups[j].insert(pair.0);
                assert(self@ =~= inserted(before, state1, state2));
            },
            (None, None) => {
                let mut group: HashSet<u128> = HashSet::new();
                group.insert(pair.0);
                group.insert(pair.1);
                assert(group@ =~= set![pair.0, pair.1]);
                self.groups.push(group);
                assert(self@ =~= inserted(before, state1, state2));
            },
        }
    }

    /// The number of groups.
    pub fn num_of_groups(&self) -> (r: usize)
        ensures
            r == self@.len(),
    {
        self.groups.len()
    }

    /// The number of states in all the groups together.
    pub fn num_of_indistin_states(&self) -> (r: usize)
        requires
            total_size(self@) <= usize::MAX,
        ensures
            r == total_size(self@),
    {
        let mut sum: usize = 0;
        let mut i: usize = 0;
        while i < self.groups.len()
            invariant
                i <= self.groups.len(),
                self@.len() == self.groups@.len(),
                sum == total_size(self@.take(i as int)),
                total_size(self@) <= usize::MAX,
            decreases self.groups.len() - i,
        {
            proof {
                assert(self@.take(i + 1).drop_last() =~= self@.take(i as int));
                assert(self@.take(i + 1).last() == self.groups@[i as int]@);
                lemma_total_size_prefix(self@, i + 1);
            }
            sum = sum + self.groups[i].len();
            i += 1;
        }
        assert(self@.take(self@.len() as int) =~= self@);
        sum
    }

    /// The groups, in their order.
    pub fn iter(&self) -> (r: &Vec<HashSet<u128>>)
        ensures
            r@.len() == self@.len(),
            forall|i: int| 0 <= i < r@.len() ==> (#[trigger] r@[i])@ == self@[i],
    {
        &self.groups
    }
}

/// The groups up to some place hold no more states than all the groups.
pub proof fn lemma_total_size_prefix(groups: Seq<Set<u128>>, upto: int)
    requires
        0 <= upto <= groups.len(),
    ensures
        total_size(groups.take(upto)) <= total_size(groups),
    decreases groups.len(),
{
    if upto < groups.len() {
        assert(groups.drop_last().take(upto) =~= groups.take(upto));
        lemma_total_size_prefix(groups.drop_last(), upto);
    } else {
        assert(groups.take(upto) =~= groups);
    }
}

/// The group that the pairs `(p, y)` with `y < q` have made so far: `p`
/// with its partners below `q`, if `p` is its own leader and has such a
/// partner.
spec fn row_groups(d: DenseModel, p: u128, q: int) -> Seq<Seq<u128>> {
    if d.leader_of(p) == p && d.partners(p, q).len() > 0 {
        seq![seq![p] + d.partners(p, q)]
    } else {
        Seq::empty()
    }
}

/// The states of a sequence with one state more.
proof fn lemma_push_to_set(group: Seq<u128>, x: u128)
    ensures
        group.push(x).to_set() == group.to_set().insert(x),
{
    assert forall|y: u128| group.push(x).to_set().contains(y) <==> group.to_set().insert(
        x,
    ).contains(y) by {
        crate::graph::lemma_push_contains(group, x, y);
    }
    assert(group.push(x).to_set() =~= group.to_set().insert(x));
}

/// Putting in the pair `(p, q)` of equivalent states takes the groups from
/// what they are before the pair to what they are after it.
proof fn lemma_insert_step(d: DenseModel, p: u128, q: u128)
    requires
        d.wf(),
        p < q < d.states,
        d.equivalent(p, q),
    ensures
        inserted(sets_of(d.classes_upto(p as int) + row_groups(d, p, q as int)), p, q) == sets_of(
            d.classes_upto(p as int) + row_groups(d, p, q + 1),
        ),
{
    let g0 = d.classes_upto(p as int);
    let r = row_groups(d, p, q as int);
    let s0 = sets_of(g0);
    let g = sets_of(g0 + r);
    let after = sets_of(g0 + row_groups(d, p, q + 1));
    let m = d.leader_of(p);
    d.lemma_leader_of(p);
    d.lemma_leader_of(q);
    d.lemma_leader_same(p, q);
    d.lemma_group_index_of(p as int, p);
    d.lemma_group_index_of(p as int, q);
    d.lemma_partners(p, q as int);
    d.lemma_partners(p, q + 1);
    lemma_group_index_range(s0, p);
    lemma_group_index_range(s0, q);
    assert(d.partners(p, q + 1) == d.partners(p, q as int).push(q));
    if m < p {
        d.lemma_partners(m, d.states as int);
        assert(d.partners(m, d.states as int).contains(p));
        assert(d.is_leader(m));
        assert(r =~= Seq::<Seq<u128>>::empty());
        assert(g0 + r =~= g0);
        assert(row_groups(d, p, q + 1) =~= Seq::<Seq<u128>>::empty());
        assert(g0 + row_groups(d, p, q + 1) =~= g0);
    } else {
        assert(group_index(s0, p) == s0.len());
        assert(group_index(s0, q) == s0.len());
        if d.partners(p, q as int).len() == 0 {
            assert(g0 + r =~= g0);
            assert(d.partners(p, q + 1) =~= seq![q]);
            let pair = seq![p] + d.partners(p, q + 1);
            assert(pair =~= seq![p].push(q));
            lemma_push_to_set(seq![p], q);
            assert(seq![p].to_set() =~= set![p]) by {
                assert(seq![p][0] == p);
            }
            assert(pair.to_set() =~= set![p, q]);
            assert(g0 + row_groups(d, p, q + 1) =~= g0.push(pair));
            assert(after =~= s0.push(pair.to_set()));
        } else {
            let old_group = seq![p] + d.partners(p, q as int);
            assert(g0 + r =~= g0.push(old_group));
            assert(g =~= s0.push(old_group.to_set()));
            assert(old_group[0] == p);
            assert(!old_group.contains(q)) by {
                if old_group.contains(q) {
                    let i = choose|i: int| 0 <= i < old_group.len() && old_group[i] == q;
                    assert(d.partners(p, q as int)[i - 1] == q);
                    assert(d.partners(p, q as int).contains(q));
                }
            }
            assert forall|j: int| 0 <= j < s0.len() implies !(#[trigger] g[j]).contains(p)
                && !g[j].contains(q) by {
                assert(g[j] == s0[j]);
            }
            assert(g[s0.len() as int].contains(p));
            lemma_group_index(g, p, s0.len() as int);
            lemma_group_index(g, q, g.len() as int);
            assert(old_group.push(q) =~= seq![p] + d.partners(p, q + 1));
            lemma_push_to_set(old_group, q);
            assert(g0 + row_groups(d, p, q + 1) =~= g0.push(old_group.push(q)));
            assert(after =~= s0.push(old_group.push(q).to_set()));
            assert(g.update(s0.len() as int, old_group.to_set().insert(q)) =~= after);
        }
    }
}

/// After the last pair of row `p` the groups are the classes whose leaders
/// lie below `p + 1`.
proof fn lemma_row_done(d: DenseModel, p: u128)
    requires
        p < d.states,
    ensures
        d.classes_upto(p as int) + row_groups(d, p, d.states as int) == d.classes_upto(p + 1),
        row_groups(d, p, p + 1) == Seq::<Seq<u128>>::empty(),
{
    let g0 = d.classes_upto(p as int);
    if d.is_leader(p) {
        assert(g0 + row_groups(d, p, d.states as int) =~= g0.push(d.class_of(p)));
    } else {
        assert(g0 + row_groups(d, p, d.states as int) =~= g0);
    }
    assert(d.partners(p, p + 1) =~= Seq::<u128>::empty());
}

/// The groups of the states of `dfa` that no word tells apart: the classes
/// of its table, see [`DenseModel::class_sets`].
pub fn compute_indistin_state_groups<D: CompletedDfa>(dfa: &D) -> (groups: IndistinGroups)
    requires
        exists|d: DenseModel| #[trigger] tabulates(dfa, d),
    ensures
        forall|d: DenseModel| #[trigger] tabulates(dfa, d) ==> groups@ == d.class_sets(),
{
    let ghost d = choose|d: DenseModel| #[trigger] tabulates(dfa, d);
    let n: u128 = dfa.number_of_states();
    let mut table: PairTable = PairTable::new(n as usize);
    mark_accept_pairs(&mut table, dfa, Ghost(d));
    fill_table(&mut table, dfa, Ghost(d));
    let mut groups: IndistinGroups = IndistinGroups::new();
    let mut p: u128 = 0;
    while p < n
        invariant
            p <= n,
            n == d.states,
            tabulates(dfa, d),
            d.wf(),
            d.closed(),
            table_inv(d, &table, Seq::empty(), d.states as int, 0),
            groups@ == sets_of(d.classes_upto(p as int)),
        decreases n - p,
    {
        let mut q: u128 = p + 1;
        proof {
            lemma_row_done(d, p);
            assert(d.classes_upto(p as int) + row_groups(d, p, p + 1) =~= d.classes_upto(
                p as int,
            ));
        }
        while q < n
            invariant
                p < q <= n,
                n == d.states,
                tabulates(dfa, d),
                d.wf(),
                d.closed(),
                table_inv(d, &table, Seq::empty(), d.states as int, 0),
                groups@ == sets_of(d.classes_upto(p as int) + row_groups(d, p, q as int)),
            decreases n - q,
        {
            proof {
                lemma_marks_exact(d, &table, p as int, q as int);
            }
            if !table.is_distinguishable(p, q) {
                proof {
                    lemma_insert_step(d, p, q);
                }
                groups.insert_pair(p, q);
            } else {
                proof {
                    assert(d.partners(p, q + 1) == d.partners(p, q as int));
                }
            }
            q += 1;
        }
        proof {
            lemma_row_done(d, p);
        }
        p += 1;
    }
    proof {
        assert forall|e: DenseModel| #[trigger] tabulates(dfa, e) implies groups@
            == e.class_sets() by {
            lemma_tables_alike(dfa, d, e);
        }
    }
    groups
}

impl IndistinGroups {
    /// The new number of each of the states below `max_len`: see
    /// [`new_id`].
    pub fn remap(&self, max_len: u128) -> (id_map: HashMap<u128, u128>)
        requires
            max_len + self@.len() <= u128::MAX,
        ensures
            forall|x: u128| #[trigger] id_map@.contains_key(x) <==> x < max_len,
            forall|x: u128|
                x < max_len ==> #[trigger] id_map@[x] == crate::quotient::new_id(
                    self@,
                    x,
                    max_len as int,
                ),
    {
        let mut number_of_distin: u128 = 0;
        let mut old_id: u128 = 0;
        while old_id < max_len
            invariant
                old_id <= max_len,
                number_of_distin == crate::quotient::singles_below(self@, old_id as int),
                number_of_distin <= old_id,
            decreases max_len - old_id,
        {
            if self.contains_at(old_id).is_none() {
                number_of_distin += 1;
            }
            old_id += 1;
        }
        let mut id_map: HashMap<u128, u128> = HashMap::new();
        let mut new_id: u128 = 0;
        let mut old_id: u128 = 0;
        while old_id < max_len
            invariant
                old_id <= max_len,
                max_len + self@.len() <= u128::MAX,
                number_of_distin == crate::quotient::singles_below(self@, max_len as int),
                number_of_distin <= max_len,
                new_id == crate::quotient::singles_below(self@, old_id as int),
                new_id <= old_id,
                forall|x: u128| #[trigger] id_map@.contains_key(x) <==> x < old_id,
                forall|x: u128|
                    x < old_id ==> #[trigger] id_map@[x] == crate::quotient::new_id(
                        self@,
                        x,
                        max_len as int,
                    ),
            decreases max_len - old_id,
        {
            let ghost before = id_map@;
            match self.contains_at(old_id) {
                Some(group_id) => {
                    id_map.insert(old_id, number_of_distin + group_id as u128);
                },
                None => {
                    id_map.insert(old_id, new_id);
                    new_id += 1;
                },
            }
            proof {
                assert forall|x: u128| x < old_id + 1 implies #[trigger] id_map@[x]
                    == crate::quotient::new_id(self@, x, max_len as int) by {
                    if x < old_id {
                        assert(before.contains_key(x));
                        assert(id_map@[x] == before[x]);
                    }
                }
            }
            old_id += 1;
        }
        id_map
    }
}

} // verus!
