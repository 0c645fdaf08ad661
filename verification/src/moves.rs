//! The symbol moves of one state, sorted by symbol and gathered into one
//! group for each symbol.
use itertools::Itertools;
use std::cmp::Ordering;
use vstd::prelude::*;

verus! {

/// The targets of the moves of `s` that read `a`, in the order of `s`.
pub open spec fn targets_with(s: Seq<(u8, u32)>, a: u8) -> Seq<u32>
    decreases s.len(),
{
    if s.len() == 0 {
        Seq::empty()
    } else if s.last().0 == a {
        targets_with(s.drop_last(), a).push(s.last().1)
    } else {
        targets_with(s.drop_last(), a)
    }
}

/// The symbols of `s` never go down.
pub open spec fn sorted_by_symbol(s: Seq<(u8, u32)>) -> bool {
    forall|i: int, j: int| 0 <= i < j < s.len() ==> s[i].0 <= s[j].0
}

/// The moves that one group stands for.
pub open spec fn group_moves(a: u8, targets: Seq<u32>) -> Seq<(u8, u32)> {
    targets.map_values(|t: u32| (a, t))
}

/// The moves that `groups` stand for, group after group.
pub open spec fn ungrouped(groups: Seq<(u8, Vec<u32>)>) -> Seq<(u8, u32)>
    decreases groups.len(),
{
    if groups.len() == 0 {
        Seq::empty()
    } else {
        ungrouped(groups.drop_last()) + group_moves(groups.last().0, groups.last().1@)
    }
}

/// `groups` holds the moves of `s` by symbol: the symbols go up strictly, no
/// group is empty, a symbol has a group if and only if `s` reads it, and its
/// group holds the targets of its moves in the order of `s`.
pub open spec fn grouped_by_symbol(s: Seq<(u8, u32)>, groups: Seq<(u8, Vec<u32>)>) -> bool {
    &&& forall|i: int, j: int| 0 <= i < j < groups.len() ==> groups[i].0 < groups[j].0
    &&& forall|i: int|
        0 <= i < groups.len() ==> (#[trigger] groups[i]).1@.len() > 0 && groups[i].1@
            == targets_with(s, groups[i].0)
    &&& forall|a: u8|
        #[trigger] targets_with(s, a).len() > 0 ==> exists|i: int|
            0 <= i < groups.len() && (#[trigger] groups[i]).0 == a
}

/// How two moves compare: by their symbols alone.
pub fn symbol_order(a: &(u8, u32), b: &(u8, u32)) -> (o: Ordering)
    ensures
        o == (if a.0 < b.0 {
            Ordering::Less
        } else if a.0 == b.0 {
            Ordering::Equal
        } else {
            Ordering::Greater
        }),
{
    if a.0 < b.0 {
        Ordering::Less
    } else if a.0 == b.0 {
        Ordering::Equal
    } else {
        Ordering::Greater
    }
}

/// `itertools::Itertools::sorted_by` with `symbol_order`: a stable sort by
/// symbol. The result is sorted, and for each symbol it holds the targets
/// that `moves` holds, in the same order.
#[verifier::external_body]
fn sort_by_symbol(moves: &Vec<(u8, u32)>) -> (r: Vec<(u8, u32)>)
    ensures
        sorted_by_symbol(r@),
        forall|a: u8| #[trigger] targets_with(r@, a) == targets_with(moves@, a),
{
    moves.iter().copied().sorted_by(|a, b| symbol_order(a, b)).collect()
}

/// `itertools::Itertools::group_by` with the symbol as key: consecutive
/// moves with one symbol form one group. The groups, one after the other,
/// hold the moves of `moves`; no group is empty and neighbours differ in
/// their symbols.
#[verifier::external_body]
fn group_runs(moves: &Vec<(u8, u32)>) -> (r: Vec<(u8, Vec<u32>)>)
    ensures
        ungrouped(r@) == moves@,
        forall|i: int| 0 <= i < r@.len() ==> (#[trigger] r@[i]).1@.len() > 0,
        forall|i: int| 0 <= i < r@.len() - 1 ==> (#[trigger] r@[i]).0 != r@[i + 1].0,
{
    moves.iter().group_by(|m| m.0).into_iter().map(|(a, g)| (a, g.map(|m| m.1).collect())).collect()
}

/// The targets of two sequences of moves, one after the other.
pub proof fn lemma_targets_with_add(x: Seq<(u8, u32)>, y: Seq<(u8, u32)>, a: u8)
    ensures
        targets_with(x + y, a) == targets_with(x, a) + targets_with(y, a),
    decreases y.len(),
{
    if y.len() == 0 {
        assert(x + y =~= x);
        assert(targets_with(x, a) + targets_with(y, a) =~= targets_with(x, a));
    } else {
        assert((x + y).drop_last() =~= x + y.drop_last());
        assert((x + y).last() == y.last());
        lemma_targets_with_add(x, y.drop_last(), a);
        if y.last().0 == a {
            assert(targets_with(x, a) + targets_with(y.drop_last(), a).push(y.last().1)
                =~= (targets_with(x, a) + targets_with(y.drop_last(), a)).push(y.last().1));
        }
    }
}

/// The targets of the moves of one group: the group's targets for the group's symbol,
/// none for another symbol.
pub proof fn lemma_targets_with_group(b: u8, targets: Seq<u32>, a: u8)
    ensures
        targets_with(group_moves(b, targets), a) == (if a == b {
            targets
        } else {
            Seq::empty()
        }),
    decreases targets.len(),
{
    let g = group_moves(b, targets);
    if targets.len() == 0 {
        assert(targets =~= Seq::empty());
    } else {
        assert(g.drop_last() =~= group_moves(b, targets.drop_last()));
        lemma_targets_with_group(b, targets.drop_last(), a);
        if a == b {
            assert(targets.drop_last().push(targets.last()) =~= targets);
        }
    }
}

/// In sorted moves that are cut into runs, the symbols of the runs go up
/// strictly.
pub proof fn lemma_runs_ascend(groups: Seq<(u8, Vec<u32>)>, i: int, j: int)
    requires
        sorted_by_symbol(ungrouped(groups)),
        forall|i: int| 0 <= i < groups.len() ==> (#[trigger] groups[i]).1@.len() > 0,
        forall|i: int| 0 <= i < groups.len() - 1 ==> (#[trigger] groups[i]).0 != groups[i + 1].0,
        0 <= i < j < groups.len(),
    ensures
        groups[i].0 < groups[j].0,
    decreases groups.len(),
{
    let n = groups.len() as int;
    let front = groups.drop_last();
    let last = groups.last();
    let flat = ungrouped(groups);
    let flat_front = ungrouped(front);
    let tail = group_moves(last.0, last.1@);
    assert(flat == flat_front + tail);
    assert forall|p: int, q: int| 0 <= p < q < flat_front.len() implies flat_front[p].0
        <= flat_front[q].0 by {
        assert(flat[p] == flat_front[p] && flat[q] == flat_front[q]);
    }
    assert forall|k: int| 0 <= k < front.len() implies (#[trigger] front[k]).1@.len() > 0 by {
        assert(front[k] == groups[k]);
    }
    assert forall|k: int| 0 <= k < front.len() - 1 implies (#[trigger] front[k]).0 != front[k
        + 1].0 by {
        assert(front[k] == groups[k] && front[k + 1] == groups[k + 1]);
    }
    if j < n - 1 {
        lemma_runs_ascend(front, i, j);
    } else {
        // the group before the last ends the front part, the last group starts the tail
        let prev = groups[n - 2];
        assert(front.last() == prev);
        let prev_moves = group_moves(prev.0, prev.1@);
        assert(flat_front == ungrouped(front.drop_last()) + prev_moves);
        let p = flat_front.len() - 1;
        assert(flat_front[p] == prev_moves[prev_moves.len() - 1]);
        assert(flat_front[p].0 == prev.0);
        assert(tail.len() > 0) by {
            assert(groups[n - 1].1@.len() > 0);
        }
        let q = flat_front.len() as int;
        assert(flat[q] == tail[0]);
        assert(flat[p] == flat_front[p]);
        assert(flat[p].0 <= flat[q].0);
        assert(prev.0 != last.0) by {
            assert(groups[n - 2].0 != groups[n - 2 + 1].0);
        }
        if i < n - 2 {
            lemma_runs_ascend(front, i, n - 2);
        }
    }
}

/// In runs whose symbols go up strictly, the run of a symbol holds all the
/// targets of that symbol.
pub proof fn lemma_runs_hold_targets(groups: Seq<(u8, Vec<u32>)>, a: u8)
    requires
        forall|i: int, j: int| 0 <= i < j < groups.len() ==> groups[i].0 < groups[j].0,
    ensures
        forall|i: int|
            0 <= i < groups.len() && (#[trigger] groups[i]).0 == a ==> targets_with(
                ungrouped(groups),
                a,
            ) == groups[i].1@,
        (forall|i: int| 0 <= i < groups.len() ==> (#[trigger] groups[i]).0 != a) ==> targets_with(
            ungrouped(groups),
            a,
        ).len() == 0,
    decreases groups.len(),
{
    if groups.len() > 0 {
        let front = groups.drop_last();
        let last = groups.last();
        assert forall|i: int, j: int| 0 <= i < j < front.len() implies front[i].0
            < front[j].0 by {
            assert(front[i] == groups[i] && front[j] == groups[j]);
        }
        lemma_runs_hold_targets(front, a);
        lemma_targets_with_add(ungrouped(front), group_moves(last.0, last.1@), a);
        lemma_targets_with_group(last.0, last.1@, a);
        let n = groups.len() as int;
        if last.0 == a {
            assert forall|i: int| 0 <= i < front.len() implies (#[trigger] front[i]).0 != a by {
                assert(groups[i].0 < groups[n - 1].0);
            }
            assert(targets_with(ungrouped(front), a) =~= Seq::empty());
            assert(targets_with(ungrouped(groups), a) =~= last.1@);
            assert forall|i: int| 0 <= i < groups.len() && (#[trigger] groups[i]).0
                == a implies targets_with(ungrouped(groups), a) == groups[i].1@ by {
                if i < n - 1 {
                    assert(groups[i].0 < groups[n - 1].0);
                }
            }
        } else {
            assert(targets_with(ungrouped(groups), a) =~= targets_with(ungrouped(front), a));
            assert forall|i: int| 0 <= i < groups.len() && (#[trigger] groups[i]).0
                == a implies targets_with(ungrouped(groups), a) == groups[i].1@ by {
                assert(front[i] == groups[i]);
            }
            if forall|i: int| 0 <= i < groups.len() ==> (#[trigger] groups[i]).0 != a {
                assert forall|i: int| 0 <= i < front.len() implies (#[trigger] front[i]).0
                    != a by {
                    assert(front[i] == groups[i]);
                }
            }
        }
    }
}

/// The moves by symbol: see [`grouped_by_symbol`].
pub fn group_by_symbol(moves: &Vec<(u8, u32)>) -> (r: Vec<(u8, Vec<u32>)>)
    ensures
        grouped_by_symbol(moves@, r@),
{
    let sorted: Vec<(u8, u32)> = sort_by_symbol(moves);
    let groups: Vec<(u8, Vec<u32>)> = group_runs(&sorted);
    proof {
        assert forall|i: int, j: int| 0 <= i < j < groups@.len() implies groups@[i].0
            < groups@[j].0 by {
            lemma_runs_ascend(groups@, i, j);
        }
        assert forall|i: int| 0 <= i < groups@.len() implies (#[trigger] groups@[i]).1@.len() > 0
            && groups@[i].1@ == targets_with(moves@, groups@[i].0) by {
            lemma_runs_hold_targets(groups@, groups@[i].0);
            assert(targets_with(sorted@, groups@[i].0) == targets_with(moves@, groups@[i].0));
        }
        assert forall|a: u8| #[trigger] targets_with(moves@, a).len() > 0 implies exists|i: int|
            0 <= i < groups@.len() && (#[trigger] groups@[i]).0 == a by {
            lemma_runs_hold_targets(groups@, a);
            assert(targets_with(sorted@, a) == targets_with(moves@, a));
        }
    }
    groups
}

/// A move of `s` stands behind every entry of `targets_with(s, a)`.
pub proof fn lemma_targets_with_member(s: Seq<(u8, u32)>, a: u8, i: int)
    requires
        0 <= i < targets_with(s, a).len(),
    ensures
        exists|k: int| 0 <= k < s.len() && #[trigger] s[k] == (a, targets_with(s, a)[i]),
    decreases s.len(),
{
    if s.len() > 0 {
        let front = s.drop_last();
        if s.last().0 == a && i == targets_with(front, a).len() {
            assert(s[s.len() - 1] == (a, targets_with(s, a)[i]));
        } else {
            lemma_targets_with_member(front, a, i);
            let k = choose|k: int|
                0 <= k < front.len() && #[trigger] front[k] == (a, targets_with(front, a)[i]);
            assert(s[k] == front[k]);
        }
    }
}

} // verus!
