//! What every finished deterministic automaton offers, and what an alphabet
//! offers.
use crate::dense::{DenseDFA, DenseModel};
use crate::dfa::{DeltaError, DfaModel, DFA01, ONE, ZERO};
use crate::text::{decimal, push_number, push_text};
use std::collections::HashSet;
use vstd::prelude::*;

verus! {

/// An alphabet: it has a length and hands out its symbols in their order.
pub trait Alphabet {
    /// The symbols in their order.
    spec fn symbols(&self) -> Seq<u8>;

    /// The length that the alphabet gives for itself.
    spec fn size(&self) -> nat;

    fn len(&self) -> (r: usize)
        ensures
            r == self.size(),
    ;

    fn to_iter(&self) -> (r: Vec<u8>)
        ensures
            r@ == self.symbols(),
    ;
}

/// The alphabet of the symbols from the first to the second of the pair;
/// its length is given as 2.
impl Alphabet for (u8, u8) {
    open spec fn symbols(&self) -> Seq<u8> {
        Seq::new(
            if self.0 <= self.1 {
                (self.1 - self.0 + 1) as nat
            } else {
                0nat
            },
            |i: int| (self.0 + i) as u8,
        )
    }

    open spec fn size(&self) -> nat {
        2
    }

    fn len(&self) -> (r: usize) {
        2
    }

    fn to_iter(&self) -> (r: Vec<u8>) {
        let mut r: Vec<u8> = Vec::new();
        if self.0 <= self.1 {
            let mut c: u8 = self.0;
            r.push(c);
            while c < self.1
                invariant
                    self.0 <= c <= self.1,
                    r@ == Seq::new((c - self.0 + 1) as nat, |i: int| (self.0 + i) as u8),
                decreases self.1 - c,
            {
                c += 1;
                r.push(c);
                assert(r@ =~= Seq::new((c - self.0 + 1) as nat, |i: int| (self.0 + i) as u8));
            }
            assert(r@ =~= self.symbols());
        } else {
            assert(r@ =~= self.symbols());
        }
        r
    }
}

/// The alphabet of the symbols of the vector, in their order.
impl Alphabet for Vec<u8> {
    open spec fn symbols(&self) -> Seq<u8> {
        self@
    }

    open spec fn size(&self) -> nat {
        self@.len()
    }

    fn len(&self) -> (r: usize) {
        Vec::len(self)
    }

    fn to_iter(&self) -> (r: Vec<u8>) {
        self.clone()
    }
}

/// A finished deterministic automaton: its alphabet, its states, its moves,
/// and its text forms.
pub trait CompletedDfa {
    type Alphabet: Alphabet;

    /// The automaton can be read.
    spec fn ready(&self) -> bool;

    /// The symbols of the alphabet, in their order.
    spec fn symbols(&self) -> Seq<u8>;

    /// The number of states.
    spec fn state_count(&self) -> nat;

    /// The start state, if one is set.
    spec fn first_state(&self) -> Option<u128>;

    /// The accept states.
    spec fn final_states(&self) -> Set<u128>;

    /// Where `from` leads on `input`, or why the lookup fails.
    spec fn successor(&self, from: u128, input: u8) -> Result<u128, DeltaError>;

    /// The automaton as a graph description.
    spec fn graph(&self) -> Seq<char>;

    fn alphabet(&self) -> (r: &Self::Alphabet)
        ensures
            r.symbols() == self.symbols(),
    ;

    fn start_state(&self) -> (r: u128)
        requires
            self.first_state() is Some,
        ensures
            Some(r) == self.first_state(),
    ;

    fn accept_states(&self) -> (r: &HashSet<u128>)
        ensures
            r@ == self.final_states(),
    ;

    fn number_of_states(&self) -> (r: u128)
        requires
            self.ready(),
        ensures
            r == self.state_count(),
    ;

    /// The automaton as a graph description.
    fn to_dot(&self) -> (r: String)
        requires
            self.ready(),
        ensures
            r@ == self.graph(),
    ;

    /// Where `from` leads on `input`.
    fn delta(&self, from: u128, input: u8) -> (r: Result<u128, DeltaError>)
        requires
            self.ready(),
        ensures
            r == self.successor(from, input),
    ;

}

/// The text of one cell of the transition table: `N` where the move leads
/// to the trap, and else the successor.
pub open spec fn cell_text(to: u128) -> Seq<char> {
    if to == 0 {
        "N"@
    } else {
        "q"@ + decimal(to as nat)
    }
}

/// Every state but the trap has a successor on `0` and on `1`: the lookups
/// that the transition table needs succeed.
pub open spec fn tabular<D: CompletedDfa + ?Sized>(d: &D) -> bool {
    forall|i: u128|
        1 <= i < d.state_count() ==> (#[trigger] d.successor(i, ZERO)) is Ok && d.successor(
            i,
            ONE,
        ) is Ok
}

/// The name of state `i` in the transition table: a star marks an accept
/// state, a hash the start state.
pub open spec fn state_text<D: CompletedDfa + ?Sized>(d: &D, i: u128) -> Seq<char> {
    let star = if d.final_states().contains(i) {
        "*"@
    } else {
        Seq::empty()
    };
    let name = if Some(i) == d.first_state() {
        "#q"@
    } else {
        "q"@
    };
    star + name + decimal(i as nat) + "\t"@
}

/// `acc` and then one row for each state from 1 up to `upto`: the state and
/// its successors on `0` and on `1`.
pub open spec fn with_table_rows<D: CompletedDfa + ?Sized>(d: &D, acc: Seq<char>, upto: int) -> Seq<
    char,
>
    decreases upto,
{
    if upto <= 1 {
        acc
    } else {
        let i = (upto - 1) as u128;
        with_table_rows(d, acc, upto - 1) + state_text(d, i) + cell_text(
            d.successor(i, ZERO)->Ok_0,
        ) + "\t"@ + cell_text(d.successor(i, ONE)->Ok_0) + "\t"@ + "\n"@
    }
}

/// The transition table as text: a head line, and one row for each state
/// other than the trap. It is meant for an automaton with both lookups for
/// each of these states (see [`tabular`]).
pub open spec fn table_text<D: CompletedDfa + ?Sized>(d: &D) -> Seq<char> {
    with_table_rows(d, "\t0\t1\n"@, d.state_count() as int)
}

/// Appends the text of one cell of the transition table.
fn push_cell(output: &mut String, to: u128)
    ensures
        final(output)@ == old(output)@ + cell_text(to),
{
    if to == 0 {
        push_text(output, "N");
    } else {
        push_text(output, "q");
        push_number(output, to);
        assert(output@ =~= old(output)@ + cell_text(to));
    }
}

/// The transition table of `dfa` as text: see [`table_text`].
pub fn to_fmt_output<D: CompletedDfa>(dfa: &D) -> (output: String)
    requires
        dfa.ready(),
        dfa.first_state() is Some,
        tabular(dfa),
    ensures
        output@ == table_text(dfa),
{
    let mut output: String = String::new();
    push_text(&mut output, "\t0\t1\n");
    let start_state: u128 = dfa.start_state();
    let accept_states = dfa.accept_states();
    let n: u128 = dfa.number_of_states();
    let mut i: u128 = 1;
    while i < n
        invariant
            1 <= i,
            i <= n || (n == 0 && i == 1),
            n == dfa.state_count(),
            dfa.ready(),
            tabular(dfa),
            Some(start_state) == dfa.first_state(),
            accept_states@ == dfa.final_states(),
            output@ == with_table_rows(dfa, "\t0\t1\n"@, i as int),
        decreases n - i,
    {
        let ghost before = output@;
        if accept_states.contains(&i) {
            push_text(&mut output, "*");
        }
        if i == start_state {
            push_text(&mut output, "#q");
        } else {
            push_text(&mut output, "q");
        }
        push_number(&mut output, i);
        push_text(&mut output, "\t");
        assert(output@ =~= before + state_text(dfa, i));
        assert(dfa.successor(i, ZERO) is Ok && dfa.successor(i, ONE) is Ok);
        let on_zero: u128 = match dfa.delta(i, ZERO) {
            Ok(to) => to,
            Err(_) => 0,
        };
        let on_one: u128 = match dfa.delta(i, ONE) {
            Ok(to) => to,
            Err(_) => 0,
        };
        push_cell(&mut output, on_zero);
        push_text(&mut output, "\t");
        push_cell(&mut output, on_one);
        push_text(&mut output, "\t");
        push_text(&mut output, "\n");
        i += 1;
    }
    proof {
        if n == 0 {
            assert(with_table_rows(dfa, "\t0\t1\n"@, 1) == with_table_rows(dfa, "\t0\t1\n"@, 0));
        }
    }
    output
}

impl CompletedDfa for DFA01 {
    type Alphabet = (u8, u8);

    open spec fn ready(&self) -> bool {
        true
    }

    open spec fn symbols(&self) -> Seq<u8> {
        self@.alphabet.symbols()
    }

    open spec fn state_count(&self) -> nat {
        self@.states.len()
    }

    open spec fn first_state(&self) -> Option<u128> {
        self@.start
    }

    open spec fn final_states(&self) -> Set<u128> {
        self@.accept
    }

    open spec fn successor(&self, from: u128, input: u8) -> Result<u128, DeltaError> {
        if !self@.states.contains_key(from) {
            Err(DeltaError::UnknownState)
        } else if input != ZERO && input != ONE {
            Err(DeltaError::UnknownSymbol)
        } else {
            Ok(self@.next(from, input))
        }
    }

    open spec fn graph(&self) -> Seq<char> {
        self@.dot_text()
    }

    fn alphabet(&self) -> (r: &(u8, u8)) {
        DFA01::alphabet(self)
    }

    fn start_state(&self) -> (r: u128) {
        DFA01::start_state(self)
    }

    fn accept_states(&self) -> (r: &HashSet<u128>) {
        DFA01::accept_states(self)
    }

    fn number_of_states(&self) -> (r: u128) {
        DFA01::number_of_states(self)
    }

    fn to_dot(&self) -> (r: String) {
        DFA01::to_dot(self)
    }

    fn delta(&self, from: u128, input: u8) -> (r: Result<u128, DeltaError>) {
        DFA01::delta(self, from, input)
    }

}

impl CompletedDfa for DenseDFA {
    type Alphabet = Vec<u8>;

    open spec fn ready(&self) -> bool {
        self.wf()
    }

    open spec fn symbols(&self) -> Seq<u8> {
        self@.alphabet
    }

    open spec fn state_count(&self) -> nat {
        self@.states
    }

    open spec fn first_state(&self) -> Option<u128> {
        self@.start
    }

    open spec fn final_states(&self) -> Set<u128> {
        self@.accept
    }

    open spec fn successor(&self, from: u128, input: u8) -> Result<u128, DeltaError> {
        if from >= self@.states {
            Err(DeltaError::UnknownState)
        } else if !self@.alphabet.contains(input) {
            Err(DeltaError::UnknownSymbol)
        } else {
            Ok(self@.next(from, input))
        }
    }

    open spec fn graph(&self) -> Seq<char> {
        self@.dot_text()
    }

    fn alphabet(&self) -> (r: &Vec<u8>) {
        DenseDFA::alphabet(self)
    }

    fn start_state(&self) -> (r: u128) {
        DenseDFA::start_state(self)
    }

    fn accept_states(&self) -> (r: &HashSet<u128>) {
        DenseDFA::accept_states(self)
    }

    fn number_of_states(&self) -> (r: u128) {
        DenseDFA::number_of_states(self)
    }

    fn to_dot(&self) -> (r: String) {
        DenseDFA::to_dot(self)
    }

    fn delta(&self, from: u128, input: u8) -> (r: Result<u128, DeltaError>) {
        DenseDFA::delta(self, from, input)
    }

}

/// `d` is the table of `dfa`: it has its symbols, its states and its accept
/// states, and in each cell the successor that `dfa` gives for the state
/// and the symbol of the cell.
pub open spec fn tabulates<D: CompletedDfa + ?Sized>(dfa: &D, d: DenseModel) -> bool {
    &&& dfa.ready()
    &&& d.wf()
    &&& d.closed()
    &&& dfa.symbols() == d.alphabet
    &&& dfa.state_count() == d.states
    &&& dfa.final_states() == d.accept
    &&& forall|s: u128, k: int|
        s < d.states && 0 <= k < d.alphabet.len() ==> #[trigger] dfa.successor(s, d.alphabet[k])
            == Ok::<u128, DeltaError>(d.at(s as int, k))
}

/// Two tables of one automaton have the same moves.
pub proof fn lemma_tables_alike<D: CompletedDfa + ?Sized>(dfa: &D, d: DenseModel, e: DenseModel)
    requires
        tabulates(dfa, d),
        tabulates(dfa, e),
    ensures
        d.same_moves(e),
        d.class_sets() == e.class_sets(),
{
    assert forall|s: int, k: int| 0 <= s < d.states && 0 <= k < d.alphabet.len() implies #[trigger] d.at(
        s,
        k,
    ) == e.at(s, k) by {
        assert(dfa.successor(s as u128, d.alphabet[k]) == Ok::<u128, DeltaError>(d.at(s, k)));
        assert(dfa.successor(s as u128, e.alphabet[k]) == Ok::<u128, DeltaError>(e.at(s, k)));
    }
    d.lemma_same_classes(e, d.states as int);
}

/// A well-formed dense automaton whose moves lead to states is its own
/// table.
pub proof fn lemma_dense_tabulates(dfa: &DenseDFA)
    requires
        dfa.wf(),
        dfa@.closed(),
    ensures
        tabulates(dfa, dfa@),
{
    dfa.lemma_wf();
    assert forall|s: u128, k: int| s < dfa@.states && 0 <= k < dfa@.alphabet.len() implies #[trigger] dfa.successor(
        s,
        dfa@.alphabet[k],
    ) == Ok::<u128, DeltaError>(dfa@.at(s as int, k)) by {
        dfa@.lemma_column_of(k);
    }
}

} // verus!
