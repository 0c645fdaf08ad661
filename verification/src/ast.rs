//! The syntax tree of a regular expression, as the automaton builder reads it.
use vstd::prelude::*;

verus! {

/// One node of a regular expression's syntax tree.
pub enum Ast {
    /// Matches the empty string.
    Empty,
    /// Matches exactly this byte string.
    Literal(Vec<u8>),
    /// Matches one byte out of any of these inclusive ranges.
    Class(Vec<(u8, u8)>),
    /// A lookaround assertion; no automaton can be built for it.
    Look,
    /// Zero or more greedy repetitions of the child.
    Repetition(Box<Ast>),
    /// A capture group; it matches what its child matches.
    Capture(Box<Ast>),
    /// The children one after the other.
    Concat(Vec<Ast>),
    /// Any one of the children.
    Alternation(Vec<Ast>),
}

impl Ast {
    /// The direct children, left to right.
    pub open spec fn children(self) -> Seq<Ast> {
        match self {
            Ast::Repetition(sub) => seq![*sub],
            Ast::Capture(sub) => seq![*sub],
            Ast::Concat(subs) => subs@,
            Ast::Alternation(subs) => subs@,
            _ => Seq::empty(),
        }
    }

    /// Every child is structurally smaller than its parent.
    pub proof fn lemma_child_decreases(self, i: int)
        requires
            0 <= i < self.children().len(),
        ensures
            decreases_to!(self => self.children()[i]),
    {
        match self {
            Ast::Repetition(sub) => {},
            Ast::Capture(sub) => {},
            Ast::Concat(subs) => {
                assert(decreases_to!(subs => subs[i]));
            },
            Ast::Alternation(subs) => {
                assert(decreases_to!(subs => subs[i]));
            },
            _ => {},
        }
    }

    /// Number of nodes of the tree.
    pub open spec fn node_count(self) -> nat
        decreases self, self.children().len() + 1,
    {
        1 + self.count_from(0)
    }

    /// Number of nodes below the children `from..`.
    pub open spec fn count_from(self, from: int) -> nat
        decreases self, self.children().len() - from,
    {
        if 0 <= from < self.children().len() {
            proof {
                self.lemma_child_decreases(from);
            }
            self.children()[from].node_count() + self.count_from(from + 1)
        } else {
            0
        }
    }

    /// Number of direct children.
    pub fn child_count(&self) -> (n: usize)
        ensures
            n == self.children().len(),
    {
        match self {
            Ast::Repetition(_) => 1,
            Ast::Capture(_) => 1,
            Ast::Concat(subs) => subs.len(),
            Ast::Alternation(subs) => subs.len(),
            _ => 0,
        }
    }

    /// The child at position `i`.
    pub fn child(&self, i: usize) -> (c: &Ast)
        requires
            i < self.children().len(),
        ensures
            *c == self.children()[i as int],
    {
        match self {
            Ast::Repetition(sub) => &**sub,
            Ast::Capture(sub) => &**sub,
            Ast::Concat(subs) => &subs[i],
            Ast::Alternation(subs) => &subs[i],
            _ => self,
        }
    }
}

impl Ast {
    /// The tree holds a lookaround assertion.
    pub open spec fn has_look(self) -> bool
        decreases self, self.children().len() + 1,
    {
        self is Look || self.has_look_from(0)
    }

    /// One of the children `from..` holds a lookaround assertion.
    pub open spec fn has_look_from(self, from: int) -> bool
        decreases self, self.children().len() - from,
    {
        if 0 <= from < self.children().len() {
            proof {
                self.lemma_child_decreases(from);
            }
            self.children()[from].has_look() || self.has_look_from(from + 1)
        } else {
            false
        }
    }
}

} // verus!
