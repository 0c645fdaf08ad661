//! Reachability in a directed graph whose nodes are integers and whose edges
//! are given by a predicate.
use std::collections::HashSet;
use vstd::prelude::*;

verus! {

broadcast use vstd::std_specs::hash::group_hash_axioms;

/// `p` is a walk: it is not empty and each node leads to the next by an edge.
pub open spec fn is_walk(edge: spec_fn(int, int) -> bool, p: Seq<int>) -> bool {
    &&& p.len() >= 1
    &&& forall|i: int| 0 <= i < p.len() - 1 ==> edge(#[trigger] p[i], p[i + 1])
}

/// Some walk leads from `a` to `b`; the walk of one node leads from `a` to
/// `a`.
pub open spec fn reaches(edge: spec_fn(int, int) -> bool, a: int, b: int) -> bool {
    exists|p: Seq<int>| is_walk(edge, p) && p[0] == a && #[trigger] p.last() == b
}

/// No edge leaves `s`.
pub open spec fn closed_under(edge: spec_fn(int, int) -> bool, s: Set<int>) -> bool {
    forall|x: int, y: int| s.contains(x) && #[trigger] edge(x, y) ==> s.contains(y)
}

/// Every node reaches itself.
pub proof fn lemma_reaches_self(edge: spec_fn(int, int) -> bool, a: int)
    ensures
        reaches(edge, a, a),
{
    let p = seq![a];
    assert(is_walk(edge, p) && p[0] == a && p.last() == a);
}

/// What is reached reaches on by one edge.
pub proof fn lemma_reaches_step(edge: spec_fn(int, int) -> bool, a: int, b: int, c: int)
    requires
        reaches(edge, a, b),
        edge(b, c),
    ensures
        reaches(edge, a, c),
{
    let p = choose|p: Seq<int>| is_walk(edge, p) && p[0] == a && #[trigger] p.last() == b;
    let q = p.push(c);
    assert forall|i: int| 0 <= i < q.len() - 1 implies edge(#[trigger] q[i], q[i + 1]) by {
        if i < p.len() - 1 {
            assert(edge(p[i], p[i + 1]));
        }
    }
    assert(is_walk(edge, q) && q[0] == a && q.last() == c);
}

/// A walk cannot leave a closed set.
pub proof fn lemma_walk_stays(edge: spec_fn(int, int) -> bool, s: Set<int>, p: Seq<int>, i: int)
    requires
        closed_under(edge, s),
        is_walk(edge, p),
        s.contains(p[0]),
        0 <= i < p.len(),
    ensures
        s.contains(p[i]),
    decreases i,
{
    if i > 0 {
        lemma_walk_stays(edge, s, p, i - 1);
        assert(edge(p[i - 1], p[i - 1 + 1]));
    }
}

/// A closed set holds all that is reachable from any of its nodes.
pub proof fn lemma_closed_holds_reachable(
    edge: spec_fn(int, int) -> bool,
    s: Set<int>,
    a: int,
    b: int,
)
    requires
        closed_under(edge, s),
        s.contains(a),
        reaches(edge, a, b),
    ensures
        s.contains(b),
{
    let p = choose|p: Seq<int>| is_walk(edge, p) && p[0] == a && #[trigger] p.last() == b;
    lemma_walk_stays(edge, s, p, p.len() - 1);
}

/// A sequence of distinct numbers below `n` has at most `n` entries.
pub proof fn lemma_distinct_below(s: Seq<u32>, n: int)
    requires
        s.no_duplicates(),
        forall|i: int| 0 <= i < s.len() ==> (#[trigger] s[i]) < n,
        0 <= n,
    ensures
        s.len() <= n,
{
    let t = s.map_values(|x: u32| x as int);
    assert(t.no_duplicates());
    t.unique_seq_to_set();
    vstd::set_lib::lemma_int_range(0, n);
    assert(t.to_set().subset_of(vstd::set_lib::set_int_range(0, n))) by {
        assert forall|x: int| t.to_set().contains(x) implies vstd::set_lib::set_int_range(
            0,
            n,
        ).contains(x) by {
            let i = choose|i: int| 0 <= i < t.len() && t[i] == x;
            assert(s[i] < n);
        }
    }
    vstd::set_lib::lemma_len_subset(t.to_set(), vstd::set_lib::set_int_range(0, n));
}

/// What a sequence holds after a push: what it held, and what was pushed.
pub proof fn lemma_push_contains<T>(s: Seq<T>, x: T, y: T)
    ensures
        s.push(x).contains(y) <==> (s.contains(y) || x == y),
{
    let t = s.push(x);
    if s.contains(y) {
        let i = choose|i: int| 0 <= i < s.len() && s[i] == y;
        assert(t[i] == y);
    }
    if x == y {
        assert(t[s.len() as int] == y);
    }
    if t.contains(y) {
        let i = choose|i: int| 0 <= i < t.len() && t[i] == y;
        if i < s.len() {
            assert(s[i] == y);
        }
    }
}

/// What a sequence holds: what it holds without its last entry, and its last entry.
pub proof fn lemma_drop_last_contains<T>(s: Seq<T>, y: T)
    requires
        s.len() > 0,
    ensures
        s.contains(y) <==> (s.drop_last().contains(y) || s.last() == y),
{
    let t = s.drop_last();
    assert(s =~= t.push(s.last()));
    lemma_push_contains(t, s.last(), y);
}

/// Whether `x` occurs in `v`.
pub fn contains_id(v: &Vec<u32>, x: u32) -> (r: bool)
    ensures
        r == v@.contains(x),
{
    let mut i: usize = 0;
    while i < v.len()
        invariant
            i <= v.len(),
            forall|j: int| 0 <= j < i ==> v@[j] != x,
        decreases v.len() - i,
    {
        if v[i] == x {
            return true;
        }
        i += 1;
    }
    false
}

/// Whether the move `m` occurs in `v`.
pub fn contains_move(v: &Vec<(u8, u32)>, m: (u8, u32)) -> (r: bool)
    ensures
        r == v@.contains(m),
{
    let mut i: usize = 0;
    while i < v.len()
        invariant
            i <= v.len(),
            forall|j: int| 0 <= j < i ==> v@[j] != m,
        decreases v.len() - i,
    {
        if v[i].0 == m.0 && v[i].1 == m.1 {
            return true;
        }
        i += 1;
    }
    false
}

/// Pushes onto `stack` every entry of `targets` that `seen` does not hold.
pub fn push_unseen(stack: &mut Vec<u32>, seen: &Vec<u32>, targets: &Vec<u32>)
    ensures
        forall|x: u32|
            #[trigger] final(stack)@.contains(x) <==> (old(stack)@.contains(x) || (
            targets@.contains(x) && !seen@.contains(x))),
{
    let mut i: usize = 0;
    while i < targets.len()
        invariant
            i <= targets.len(),
            forall|x: u32|
                #[trigger] stack@.contains(x) <==> (old(stack)@.contains(x) || (targets@.subrange(
                    0,
                    i as int,
                ).contains(x) && !seen@.contains(x))),
        decreases targets.len() - i,
    {
        let to: u32 = targets[i];
        let ghost before = stack@;
        let ghost done = targets@.subrange(0, i as int);
        assert(targets@.subrange(0, i + 1) =~= done.push(to));
        if !contains_id(seen, to) {
            stack.push(to);
        }
        proof {
            assert forall|x: u32| #[trigger]
                stack@.contains(x) <==> (old(stack)@.contains(x) || (done.push(to).contains(x)
                    && !seen@.contains(x))) by {
                lemma_push_contains(before, to, x);
                lemma_push_contains(done, to, x);
            }
        }
        i += 1;
    }
    assert(targets@.subrange(0, targets@.len() as int) =~= targets@);
}

/// Adds to `acc` every move of `moves` that it does not hold yet.
pub fn merge_moves(acc: &mut Vec<(u8, u32)>, moves: &Vec<(u8, u32)>)
    requires
        old(acc)@.no_duplicates(),
    ensures
        final(acc)@.no_duplicates(),
        forall|m: (u8, u32)|
            #[trigger] final(acc)@.contains(m) <==> (old(acc)@.contains(m) || moves@.contains(m)),
{
    let mut i: usize = 0;
    while i < moves.len()
        invariant
            i <= moves.len(),
            acc@.no_duplicates(),
            forall|m: (u8, u32)|
                #[trigger] acc@.contains(m) <==> (old(acc)@.contains(m) || moves@.subrange(
                    0,
                    i as int,
                ).contains(m)),
        decreases moves.len() - i,
    {
        let m: (u8, u32) = moves[i];
        let ghost before = acc@;
        let ghost done = moves@.subrange(0, i as int);
        assert(moves@.subrange(0, i + 1) =~= done.push(m));
        if !contains_move(acc, m) {
            acc.push(m);
        }
        proof {
            assert forall|x: (u8, u32)| #[trigger]
                acc@.contains(x) <==> (old(acc)@.contains(x) || done.push(m).contains(x)) by {
                lemma_push_contains(before, m, x);
                lemma_push_contains(done, m, x);
            }
        }
        i += 1;
    }
    assert(moves@.subrange(0, moves@.len() as int) =~= moves@);
}

/// A push of a new entry keeps a sequence free of duplicates.
pub proof fn lemma_push_no_duplicates<T>(s: Seq<T>, x: T)
    requires
        s.no_duplicates(),
        !s.contains(x),
    ensures
        s.push(x).no_duplicates(),
{
    let t = s.push(x);
    assert forall|i: int, j: int| 0 <= i < t.len() && 0 <= j < t.len() && i != j implies t[i]
        != t[j] by {
        if i < s.len() && j < s.len() {
        } else if i < s.len() {
            assert(s.contains(s[i]));
        } else {
            assert(s.contains(s[j]));
        }
    }
}

/// Along the edges of a smaller graph one reaches no more than along those
/// of a larger one.
pub proof fn lemma_reaches_mono(
    small: spec_fn(int, int) -> bool,
    large: spec_fn(int, int) -> bool,
    a: int,
    b: int,
)
    requires
        forall|x: int, y: int| #[trigger] small(x, y) ==> large(x, y),
        reaches(small, a, b),
    ensures
        reaches(large, a, b),
{
    let p = choose|p: Seq<int>| is_walk(small, p) && p[0] == a && #[trigger] p.last() == b;
    assert forall|i: int| 0 <= i < p.len() - 1 implies large(#[trigger] p[i], p[i + 1]) by {
        assert(small(p[i], p[i + 1]));
    }
    assert(is_walk(large, p) && p[0] == a && p.last() == b);
}

/// What is reached reaches on.
pub proof fn lemma_reaches_trans(edge: spec_fn(int, int) -> bool, a: int, b: int, c: int)
    requires
        reaches(edge, a, b),
        reaches(edge, b, c),
    ensures
        reaches(edge, a, c),
{
    let s = Set::new(|x: int| reaches(edge, a, x));
    assert forall|x: int, y: int| s.contains(x) && #[trigger] edge(x, y) implies s.contains(y) by {
        lemma_reaches_step(edge, a, x, y);
    }
    lemma_closed_holds_reachable(edge, s, b, c);
}

/// The members of `s`, each once, in the order in which the set hands them
/// out.
pub fn members_of(s: &HashSet<u32>) -> (v: Vec<u32>)
    ensures
        v@.to_set() == s@,
        v@.no_duplicates(),
{
    let mut v: Vec<u32> = Vec::new();
    let ghost full = vstd::std_specs::iter::IteratorSpec::remaining(
        &vstd::std_specs::hash::spec_hash_keys_iter(s),
    ).unref();
    proof {
        vstd::std_specs::hash::axiom_spec_hash_keys_iter(s);
    }
    for x in it: s.iter()
        invariant
            it.seq().unref() == full,
            v@ == full.take(it.index() as int),
    {
        assert(full[it.index() as int] == *x);
        v.push(*x);
        assert(v@ =~= full.take(it.index() + 1));
    }
    assert(v@ =~= full);
    assert(full.no_duplicates()) by {
        let keys = vstd::std_specs::iter::IteratorSpec::remaining(
            &vstd::std_specs::hash::spec_hash_keys_iter(s),
        );
        assert forall|i: int, j: int| 0 <= i < full.len() && 0 <= j < full.len() && i
            != j implies full[i] != full[j] by {
            assert(keys[i] != keys[j]);
        }
    }
    v
}

/// The set of the entries of `v`.
pub fn set_of(v: &Vec<u32>) -> (s: HashSet<u32>)
    ensures
        s@ == v@.to_set(),
{
    let mut s: HashSet<u32> = HashSet::new();
    let mut i: usize = 0;
    while i < v.len()
        invariant
            i <= v.len(),
            s@ == v@.take(i as int).to_set(),
        decreases v.len() - i,
    {
        s.insert(v[i]);
        assert(v@.take(i + 1) =~= v@.take(i as int).push(v@[i as int]));
        assert(s@ =~= v@.take(i + 1).to_set()) by {
            assert forall|x: u32| s@.contains(x) <==> v@.take(i + 1).to_set().contains(x) by {
                lemma_push_contains(v@.take(i as int), v@[i as int], x);
            }
        }
        i += 1;
    }
    assert(v@.take(v@.len() as int) =~= v@);
    s
}

} // verus!
