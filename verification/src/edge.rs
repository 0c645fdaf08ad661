//! A dense automaton as a list of its edges.
use crate::dense::{DenseDFA, DenseModel};
use vstd::prelude::*;

verus! {

/// One move: the state it leaves, the symbol it reads, the state it leads
/// to.
#[derive(Debug, Clone, Copy)]
pub struct Edge(pub u128, pub u8, pub u128);

impl Edge {
    /// The state that the move leaves.
    pub fn from(&self) -> (r: u128)
        ensures
            r == self.0,
    {
        self.0
    }

    /// The state that the move leads to.
    pub fn to(&self) -> (r: u128)
        ensures
            r == self.2,
    {
        self.2
    }

    /// The symbol that the move reads.
    pub fn input(&self) -> (r: u8)
        ensures
            r == self.1,
    {
        self.1
    }
}

/// `acc` and then the edges of state `s` in the columns below `upto` that
/// do not lead to the trap.
pub open spec fn with_row_edges(acc: Seq<Edge>, m: DenseModel, s: int, upto: int) -> Seq<Edge>
    decreases upto,
{
    if upto <= 0 {
        acc
    } else if m.at(s, upto - 1) == 0 {
        with_row_edges(acc, m, s, upto - 1)
    } else {
        with_row_edges(acc, m, s, upto - 1).push(
            Edge(s as u128, m.alphabet[upto - 1], m.at(s, upto - 1)),
        )
    }
}

/// The edges of the states from 1 up to `upto` that do not lead to the trap,
/// state by state and column by column.
pub open spec fn edges_upto(m: DenseModel, upto: int) -> Seq<Edge>
    decreases upto,
{
    if upto <= 1 {
        Seq::empty()
    } else {
        with_row_edges(edges_upto(m, upto - 1), m, upto - 1, m.alphabet.len() as int)
    }
}

/// The positions below `upto` of the edges of `edges` that leave `from` if
/// `by_from` is set and lead to `to` if `by_to` is set.
pub open spec fn positions(
    edges: Seq<Edge>,
    from: u128,
    to: u128,
    by_from: bool,
    by_to: bool,
    upto: int,
) -> Seq<usize>
    decreases upto,
{
    if upto <= 0 {
        Seq::empty()
    } else if (!by_from || edges[upto - 1].0 == from) && (!by_to || edges[upto - 1].2 == to) {
        positions(edges, from, to, by_from, by_to, upto - 1).push((upto - 1) as usize)
    } else {
        positions(edges, from, to, by_from, by_to, upto - 1)
    }
}

/// A dense automaton as the list of its edges between states other than
/// the trap.
pub struct DfaAsEdges {
    trans: Vec<Edge>,
}

impl View for DfaAsEdges {
    type V = Seq<Edge>;

    closed spec fn view(&self) -> Seq<Edge> {
        self.trans@
    }
}

impl DfaAsEdges {
    /// The edges of `dense_dfa`: see [`edges_upto`].
    pub fn new_from_dense(dense_dfa: &DenseDFA) -> (r: DfaAsEdges)
        requires
            dense_dfa.wf(),
            dense_dfa@.closed(),
        ensures
            r@ == edges_upto(dense_dfa@, dense_dfa@.states as int),
    {
        let ghost m = dense_dfa@;
        let mut trans: Vec<Edge> = Vec::new();
        let n: u128 = dense_dfa.number_of_states();
        let alphabet: &Vec<u8> = dense_dfa.alphabet();
        let mut from: u128 = 1;
        while from < n
            invariant
                1 <= from <= n,
                n == m.states,
                m == dense_dfa@,
                dense_dfa.wf(),
                m.closed(),
                alphabet@ == m.alphabet,
                trans@ == edges_upto(m, from as int),
            decreases n - from,
        {
            let ghost before = trans@;
            let mut k: usize = 0;
            while k < alphabet.len()
                invariant
                    k <= alphabet.len(),
                    from < n,
                    n == m.states,
                    m == dense_dfa@,
                    dense_dfa.wf(),
                    m.closed(),
                    alphabet@ == m.alphabet,
                    trans@ == with_row_edges(before, m, from as int, k as int),
                decreases alphabet.len() - k,
            {
                let to: u128 = crate::minimize::successor(dense_dfa, from, k);
                if to != 0 {
                    trans.push(Edge(from, alphabet[k], to));
                }
                k += 1;
            }
            from += 1;
        }
        DfaAsEdges { trans }
    }

    /// The positions of the edges that leave `from` if `by_from` is set and
    /// lead to `to` if `by_to` is set.
    pub fn search_trans_by(&self, from: u128, to: u128, by_from: bool, by_to: bool) -> (r: Vec<
        usize,
    >)
        ensures
            r@ == positions(self@, from, to, by_from, by_to, self@.len() as int),
    {
        let mut r: Vec<usize> = Vec::new();
        let mut i: usize = 0;
        while i < self.trans.len()
            invariant
                i <= self.trans.len(),
                r@ == positions(self@, from, to, by_from, by_to, i as int),
            decreases self.trans.len() - i,
        {
            let edge: Edge = self.trans[i];
            if (!by_from || edge.from() == from) && (!by_to || edge.to() == to) {
                r.push(i);
            }
            i += 1;
        }
        r
    }

    /// The positions of the edges that leave `from`.
    pub fn search_trans_by_from(&self, from: u128) -> (r: Vec<usize>)
        ensures
            r@ == positions(self@, from, 0, true, false, self@.len() as int),
    {
        self.search_trans_by(from, 0, true, false)
    }

    /// The positions of the edges that lead to `to`.
    pub fn search_trans_by_to(&self, to: u128) -> (r: Vec<usize>)
        ensures
            r@ == positions(self@, 0, to, false, true, self@.len() as int),
    {
        self.search_trans_by(0, to, false, true)
    }

    /// The positions of the edges from `from` to `to`.
    pub fn search_trans_by_both(&self, from: u128, to: u128) -> (r: Vec<usize>)
        ensures
            r@ == positions(self@, from, to, true, true, self@.len() as int),
    {
        self.search_trans_by(from, to, true, true)
    }
}

} // verus!
