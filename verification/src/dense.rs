//! Deterministic automata kept as one flat table: the successors of state
//! `s` stand in the cells `s * stride ..`, one cell for each symbol of the
//! alphabet, where the stride is the alphabet's length rounded up to a power
//! of two. State 0 is the trap: a cell that holds 0 stands for "no move".
use crate::dfa::{DeltaError, DfaModel, State01, DFA01, ONE, ZERO};
use crate::minimize::group_index;
use std::collections::{HashMap, HashSet};
use vstd::arithmetic::power2::pow2;
use vstd::prelude::*;

verus! {

broadcast use vstd::std_specs::hash::group_hash_axioms;

/// The least `b`, from `from` on and up to 8, with `len <= 2^b`.
pub open spec fn bits_from(len: nat, from: nat) -> nat
    decreases 8 - from,
{
    if from >= 8 || len <= pow2(from) {
        from
    } else {
        bits_from(len, from + 1)
    }
}

/// The number of bits of the stride for an alphabet of `len` symbols: the
/// least `b` with `len <= 2^b`.
pub open spec fn stride_bits(len: nat) -> nat {
    bits_from(len, 0)
}

/// Powers of two up to the eighth.
pub proof fn lemma_small_pow2(b: nat)
    requires
        b <= 8,
    ensures
        1 <= pow2(b) <= 256,
        b == 0 ==> pow2(b) == 1,
        b == 1 ==> pow2(b) == 2,
        b == 8 ==> pow2(b) == 256,
{
    vstd::arithmetic::power2::lemma2_to64();
}

/// The number of bits of the stride is at most 8, and the stride is at least the
/// alphabet's length.
pub proof fn lemma_bits_from(len: nat, from: nat)
    requires
        len <= 256,
        from <= 8,
    ensures
        from <= bits_from(len, from) <= 8,
        len <= pow2(bits_from(len, from)),
    decreases 8 - from,
{
    lemma_small_pow2(from);
    if from >= 8 || len <= pow2(from) {
    } else {
        lemma_bits_from(len, from + 1);
    }
}

/// The cell of state `s` and symbol position `k` lies in the table.
pub proof fn lemma_cell_in_table(s: int, k: int, states: int, stride: int)
    requires
        0 <= s < states,
        0 <= k < stride,
    ensures
        0 <= s * stride + k < states * stride,
        (s * stride + k) / stride == s,
        (s * stride + k) % stride == k,
{
    assert(0 <= s * stride + k < states * stride) by (nonlinear_arith)
        requires
            0 <= s < states,
            0 <= k < stride,
    ;
    vstd::arithmetic::div_mod::lemma_fundamental_div_mod_converse(s * stride + k, stride, s, k);
}

/// Two cells are one cell only for one state and one symbol position.
pub proof fn lemma_cells_differ(s1: int, k1: int, s2: int, k2: int, stride: int)
    requires
        0 <= k1 < stride,
        0 <= k2 < stride,
        0 <= s1,
        0 <= s2,
        s1 * stride + k1 == s2 * stride + k2,
    ensures
        s1 == s2,
        k1 == k2,
{
    lemma_cell_in_table(s1, k1, s1 + 1, stride);
    lemma_cell_in_table(s2, k2, s2 + 1, stride);
}

/// The position of the first `a` in `s`, or the length of `s` if there is
/// none.
pub open spec fn first_index(s: Seq<u8>, a: u8) -> int
    decreases s.len(),
{
    if s.len() == 0 {
        0
    } else if s[0] == a {
        0
    } else {
        1 + first_index(s.drop_first(), a)
    }
}

/// A symbol that stands at `i` and nowhere before has the first index `i`.
pub proof fn lemma_first_index(s: Seq<u8>, a: u8, i: int)
    requires
        0 <= i <= s.len(),
        forall|j: int| 0 <= j < i ==> s[j] != a,
        i < s.len() ==> s[i] == a,
    ensures
        first_index(s, a) == i,
    decreases s.len(),
{
    if s.len() > 0 && i > 0 {
        let rest = s.drop_first();
        assert forall|j: int| 0 <= j < i - 1 implies rest[j] != a by {
            assert(rest[j] == s[j + 1]);
        }
        lemma_first_index(rest, a, i - 1);
    }
}

/// The first index of a symbol lies in the sequence if and only if the symbol occurs,
/// and the symbol stands there.
pub proof fn lemma_first_index_range(s: Seq<u8>, a: u8)
    ensures
        0 <= first_index(s, a) <= s.len(),
        s.contains(a) <==> first_index(s, a) < s.len(),
        first_index(s, a) < s.len() ==> s[first_index(s, a)] == a,
    decreases s.len(),
{
    if s.len() > 0 {
        let rest = s.drop_first();
        lemma_first_index_range(rest, a);
        if s[0] != a {
            if s.contains(a) {
                let i = choose|i: int| 0 <= i < s.len() && s[i] == a;
                assert(rest[i - 1] == a);
            }
            if rest.contains(a) {
                let i = choose|i: int| 0 <= i < rest.len() && rest[i] == a;
                assert(s[i + 1] == a);
            }
        }
    }
}

/// A flat table of `T`s with a stride that is a power of two.
#[derive(Clone)]
pub struct Transisions<T> {
    trans: Vec<T>,
    stride_as_power_of_2: u8,
}

impl<T> Transisions<T> {
    /// The cells of the table.
    pub closed spec fn cells(&self) -> Seq<T> {
        self.trans@
    }

    /// The number of bits of the stride.
    pub closed spec fn bits(&self) -> nat {
        self.stride_as_power_of_2 as nat
    }

    /// The number of rows of the table.
    pub closed spec fn rows(&self) -> nat {
        self.trans@.len() / pow2(self.stride_as_power_of_2 as nat)
    }

    /// The stride is at most 256 and the table holds whole rows.
    pub closed spec fn wf(&self) -> bool {
        &&& self.stride_as_power_of_2 <= 8
        &&& self.trans@.len() == self.rows() * pow2(self.stride_as_power_of_2 as nat)
    }

    /// What a well-formed table is.
    pub proof fn lemma_wf(&self)
        requires
            self.wf(),
        ensures
            self.bits() <= 8,
            self.cells().len() == self.rows() * pow2(self.bits()),
            self.cells().len() <= usize::MAX,
    {
        assert(self.trans@.len() == self.trans.len());
    }

    /// The distance between the rows of two states.
    pub fn stride(&self) -> (r: usize)
        requires
            self.wf(),
        ensures
            r == pow2(self.bits()),
    {
        proof {
            lemma_small_pow2(self.stride_as_power_of_2 as nat);
            vstd::bits::lemma_usize_shl_is_mul(1usize, self.stride_as_power_of_2 as usize);
        }
        1usize << self.stride_as_power_of_2
    }

    /// The number of rows.
    pub fn number_of_states(&self) -> (r: usize)
        requires
            self.wf(),
        ensures
            r == self.rows(),
    {
        proof {
            vstd::bits::lemma_usize_shr_is_div(
                self.trans.len(),
                self.stride_as_power_of_2 as usize,
            );
        }
        self.trans.len() >> self.stride_as_power_of_2
    }
}

/// The number of bits of the stride for an alphabet of `len` symbols.
fn bits_for(len: usize) -> (bits: u8)
    requires
        len <= 256,
    ensures
        bits == stride_bits(len as nat),
        bits <= 8,
        len <= pow2(bits as nat),
{
    let mut bits: u8 = 0;
    proof {
        lemma_bits_from(len as nat, 0);
    }
    while bits < 8 && (1usize << bits) < len
        invariant
            bits <= 8,
            len <= 256,
            bits_from(len as nat, bits as nat) == stride_bits(len as nat),
        decreases 8 - bits,
    {
        proof {
            lemma_small_pow2(bits as nat);
            vstd::bits::lemma_usize_shl_is_mul(1usize, bits as usize);
        }
        bits += 1;
    }
    proof {
        lemma_small_pow2(bits as nat);
        if bits < 8 {
            vstd::bits::lemma_usize_shl_is_mul(1usize, bits as usize);
        }
        lemma_bits_from(len as nat, bits as nat);
    }
    bits
}

impl Transisions<u128> {
    /// A table of `number_of_states` rows for an alphabet of `alghabet_len`
    /// symbols; every cell holds 0.
    pub fn new_with_num_and_stride(number_of_states: usize, alghabet_len: usize) -> (t: Self)
        requires
            alghabet_len <= 256,
            number_of_states * pow2(stride_bits(alghabet_len as nat)) <= usize::MAX,
        ensures
            t.wf(),
            t.bits() == stride_bits(alghabet_len as nat),
            t.rows() == number_of_states,
            t.cells() == Seq::new(
                number_of_states as nat * pow2(stride_bits(alghabet_len as nat)),
                |i: int| 0u128,
            ),
    {
        let bits: u8 = bits_for(alghabet_len);
        proof {
            lemma_small_pow2(bits as nat);
            vstd::bits::lemma_usize_shl_is_mul(1usize, bits as usize);
        }
        let stride: usize = 1usize << bits;
        let len: usize = number_of_states * stride;
        let mut trans: Vec<u128> = Vec::new();
        let mut i: usize = 0;
        while i < len
            invariant
                i <= len,
                trans@ == Seq::new(i as nat, |i: int| 0u128),
            decreases len - i,
        {
            trans.push(0);
            assert(trans@ =~= Seq::new((i + 1) as nat, |i: int| 0u128));
            i += 1;
        }
        let t = Transisions { trans, stride_as_power_of_2: bits };
        proof {
            assert((number_of_states * stride) / (stride as int) == number_of_states) by (nonlinear_arith)
                requires
                    stride > 0,
            ;
        }
        t
    }
}

impl Transisions<Vec<u128>> {
    /// A table of `number_of_states` rows for an alphabet of `alghabet_len`
    /// symbols; every cell holds the empty list.
    pub fn new_with_num_and_stride(number_of_states: usize, alghabet_len: usize) -> (t: Self)
        requires
            alghabet_len <= 256,
            number_of_states * pow2(stride_bits(alghabet_len as nat)) <= usize::MAX,
        ensures
            t.wf(),
            t.bits() == stride_bits(alghabet_len as nat),
            t.rows() == number_of_states,
            t.cells().len() == number_of_states * pow2(stride_bits(alghabet_len as nat)),
            forall|i: int| 0 <= i < t.cells().len() ==> (#[trigger] t.cells()[i])@.len() == 0,
    {
        let bits: u8 = bits_for(alghabet_len);
        proof {
            lemma_small_pow2(bits as nat);
            vstd::bits::lemma_usize_shl_is_mul(1usize, bits as usize);
        }
        let stride: usize = 1usize << bits;
        let len: usize = number_of_states * stride;
        let mut trans: Vec<Vec<u128>> = Vec::new();
        let mut i: usize = 0;
        while i < len
            invariant
                i <= len,
                trans@.len() == i,
                forall|j: int| 0 <= j < i ==> (#[trigger] trans@[j])@.len() == 0,
            decreases len - i,
        {
            trans.push(Vec::new());
            i += 1;
        }
        let t = Transisions { trans, stride_as_power_of_2: bits };
        proof {
            assert((number_of_states * stride) / (stride as int) == number_of_states) by (nonlinear_arith)
                requires
                    stride > 0,
            ;
        }
        t
    }
}

/// Mathematical value of a [`DenseDFA`].
pub struct DenseModel {
    /// The symbols, each once; a symbol's position is its column.
    pub alphabet: Seq<u8>,
    /// The number of states, the trap included.
    pub states: nat,
    /// The number of bits of the stride.
    pub bits: nat,
    /// The successor table, row after row.
    pub out: Seq<u128>,
    /// The predecessor table, row after row.
    pub ins: Seq<Seq<u128>>,
    pub start: Option<u128>,
    pub accept: Set<u128>,
}

impl DenseModel {
    /// The distance between the rows of two states.
    pub open spec fn stride(self) -> nat {
        pow2(self.bits)
    }

    /// The alphabet holds each symbol once, the stride is its length rounded
    /// up to a power of two, and both tables hold one row for each state.
    pub open spec fn wf(self) -> bool {
        &&& self.alphabet.len() <= 256
        &&& self.alphabet.no_duplicates()
        &&& self.bits == stride_bits(self.alphabet.len())
        &&& self.out.len() == self.states * self.stride()
        &&& self.ins.len() == self.out.len()
        &&& self.out.len() <= usize::MAX
        &&& self.states <= usize::MAX
    }

    /// The successor of state `s` in column `k`.
    pub open spec fn at(self, s: int, k: int) -> u128 {
        self.out[s * self.stride() + k]
    }

    /// The predecessors of state `t` in column `k`.
    pub open spec fn in_at(self, t: int, k: int) -> Seq<u128> {
        self.ins[t * self.stride() + k]
    }

    /// The column of symbol `a`, or the alphabet's length if it has none.
    pub open spec fn column(self, a: u8) -> int {
        first_index(self.alphabet, a)
    }

    /// The successor of state `s` on symbol `a`.
    pub open spec fn next(self, s: u128, a: u8) -> u128 {
        self.at(s as int, self.column(a))
    }

    /// Every move leads to a state, and the start state and the accept
    /// states are states.
    pub open spec fn closed(self) -> bool {
        &&& forall|s: int, k: int|
            0 <= s < self.states && 0 <= k < self.alphabet.len() ==> #[trigger] self.at(s, k)
                < self.states
        &&& self.start matches Some(s) && s < self.states
        &&& forall|s: u128| #[trigger] self.accept.contains(s) ==> s < self.states
    }

    /// The states below `upto` that lead to `t` in column `k`, in ascending
    /// order.
    pub open spec fn preds_upto(self, t: u128, k: int, upto: int) -> Seq<u128>
        decreases upto,
    {
        if upto <= 0 {
            Seq::empty()
        } else if self.at(upto - 1, k) == t {
            self.preds_upto(t, k, upto - 1).push((upto - 1) as u128)
        } else {
            self.preds_upto(t, k, upto - 1)
        }
    }

    /// The predecessor table holds, for each state and column, the states
    /// below `upto` that lead there, in ascending order.
    pub open spec fn ins_right_upto(self, upto: int) -> bool {
        forall|t: int, k: int|
            0 <= t < self.states && 0 <= k < self.alphabet.len() ==> #[trigger] self.in_at(t, k)
                == self.preds_upto(t as u128, k, upto)
    }

    /// The cells beyond the alphabet's columns are unused: they hold 0 and
    /// no predecessor.
    pub open spec fn padding_clear(self) -> bool {
        forall|s: int, k: int|
            0 <= s < self.states && self.alphabet.len() <= k < self.stride() ==> #[trigger] self.at(
                s,
                k,
            ) == 0 && self.in_at(s, k).len() == 0
    }

    /// The rows from `from` on hold 0 everywhere.
    pub open spec fn blank_from(self, from: int) -> bool {
        forall|s: int, k: int|
            from <= s < self.states && 0 <= k < self.stride() ==> #[trigger] self.at(s, k) == 0
    }
}

/// The predecessors among the states below `upto` depend on the rows below
/// `upto` alone.
pub proof fn lemma_preds_frame(a: DenseModel, b: DenseModel, t: u128, k: int, upto: int)
    requires
        a.stride() == b.stride(),
        forall|s: int| 0 <= s < upto ==> #[trigger] a.at(s, k) == b.at(s, k),
    ensures
        a.preds_upto(t, k, upto) == b.preds_upto(t, k, upto),
    decreases upto,
{
    if upto > 0 {
        lemma_preds_frame(a, b, t, k, upto - 1);
        assert(a.at(upto - 1, k) == b.at(upto - 1, k));
    }
}

/// A deterministic automaton in one flat table, with a second table of the
/// predecessors.
pub struct DenseDFA {
    alphabet: Vec<u8>,
    out_transitions: Transisions<u128>,
    in_transitions: Transisions<Vec<u128>>,
    start_state: Option<u128>,
    accept_states: HashSet<u128>,
}

impl View for DenseDFA {
    type V = DenseModel;

    closed spec fn view(&self) -> DenseModel {
        DenseModel {
            alphabet: self.alphabet@,
            states: self.out_transitions.rows(),
            bits: self.out_transitions.bits(),
            out: self.out_transitions.cells(),
            ins: Seq::new(
                self.in_transitions.cells().len(),
                |i: int| self.in_transitions.cells()[i]@,
            ),
            start: self.start_state,
            accept: self.accept_states@,
        }
    }
}

impl DenseDFA {
    /// The automaton is well formed: its value is, and the two tables have
    /// one shape.
    pub closed spec fn wf(&self) -> bool {
        &&& self@.wf()
        &&& self.out_transitions.wf()
        &&& self.in_transitions.wf()
        &&& self.in_transitions.bits() == self.out_transitions.bits()
    }

    /// Whether the automaton is well formed.
    pub fn is_well_formed(&self) -> (r: bool)
        ensures
            r == self.wf(),
    {
        let len: usize = self.alphabet.len();
        if len > 256 {
            return false;
        }
        if has_duplicates(&self.alphabet) {
            return false;
        }
        let bits: u8 = bits_for(len);
        if self.out_transitions.stride_as_power_of_2 != bits
            || self.in_transitions.stride_as_power_of_2 != bits {
            return false;
        }
        proof {
            lemma_small_pow2(bits as nat);
            vstd::bits::lemma_usize_shl_is_mul(1usize, bits as usize);
        }
        let stride: usize = 1usize << bits;
        let cells: usize = self.out_transitions.trans.len();
        proof {
            let rows = (cells as int) / (stride as int);
            vstd::arithmetic::div_mod::lemma_fundamental_div_mod(cells as int, stride as int);
            assert(rows * stride == stride * rows) by (nonlinear_arith);
            assert(0 <= rows <= cells) by (nonlinear_arith)
                requires
                    rows == (cells as int) / (stride as int),
                    stride >= 1,
                    cells >= 0,
            ;
        }
        if cells % stride != 0 {
            return false;
        }
        if self.in_transitions.trans.len() != cells {
            return false;
        }
        true
    }

    /// A well-formed automaton has a well-formed value.
    pub proof fn lemma_wf(&self)
        requires
            self.wf(),
        ensures
            self@.wf(),
    {
    }

    /// The column of symbol `input`, which the alphabet must hold.
    pub fn alphabet_index_of(&self, input: u8) -> (r: usize)
        requires
            self@.alphabet.contains(input),
        ensures
            r == self@.column(input),
            r < self@.alphabet.len(),
            self@.alphabet[r as int] == input,
    {
        let mut i: usize = 0;
        proof {
            lemma_first_index_range(self@.alphabet, input);
        }
        while i < self.alphabet.len()
            invariant
                i <= self.alphabet.len(),
                self@.alphabet == self.alphabet@,
                self@.alphabet.contains(input),
                forall|j: int| 0 <= j < i ==> self.alphabet@[j] != input,
            decreases self.alphabet.len() - i,
        {
            if self.alphabet[i] == input {
                proof {
                    lemma_first_index(self@.alphabet, input, i as int);
                }
                return i;
            }
            i += 1;
        }
        proof {
            let k = choose|k: int| 0 <= k < self@.alphabet.len() && self@.alphabet[k] == input;
            assert(self.alphabet@[k] != input);
        }
        i
    }

    /// Sets the successor of `from` on `input` to `to` and notes `from`
    /// among the predecessors of `to`.
    pub fn add_transition(&mut self, from: u128, input: u8, to: u128)
        requires
            old(self).wf(),
            from < old(self)@.states,
            to < old(self)@.states,
            old(self)@.alphabet.contains(input),
        ensures
            final(self).wf(),
            final(self)@ == (DenseModel {
                out: old(self)@.out.update(
                    from * old(self)@.stride() + old(self)@.column(input),
                    to,
                ),
                ins: old(self)@.ins.update(
                    to * old(self)@.stride() + old(self)@.column(input),
                    old(self)@.in_at(to as int, old(self)@.column(input)).push(from),
                ),
                ..old(self)@
            }),
    {
        let stride: usize = self.out_transitions.stride();
        let column: usize = self.alphabet_index_of(input);
        proof {
            lemma_bits_from(self@.alphabet.len(), 0);
            lemma_cell_in_table(from as int, column as int, self@.states as int, stride as int);
            lemma_cell_in_table(to as int, column as int, self@.states as int, stride as int);
        }
        let from_index: usize = (from as usize) * stride + column;
        self.out_transitions.trans.set(from_index, to);
        let to_index: usize = (to as usize) * stride + column;
        self.in_transitions.trans[to_index].push(from);
        proof {
            assert(self@.ins =~= old(self)@.ins.update(
                to * old(self)@.stride() + old(self)@.column(input),
                old(self)@.in_at(to as int, old(self)@.column(input)).push(from),
            ));
            assert((self.out_transitions.trans@.len() as int) / (stride as int) == (
            old(self).out_transitions.trans@.len() as int) / (stride as int));
        }
    }

    /// Makes `id` the start state.
    pub fn set_start_state(&mut self, id: u128)
        requires
            old(self).wf(),
        ensures
            final(self).wf(),
            final(self)@ == (DenseModel { start: Some(id), ..old(self)@ }),
    {
        self.start_state = Some(id);
    }

    /// Makes `id` an accept state.
    pub fn set_accept_state(&mut self, id: u128)
        requires
            old(self).wf(),
        ensures
            final(self).wf(),
            final(self)@ == (DenseModel { accept: old(self)@.accept.insert(id), ..old(self)@ }),
    {
        self.accept_states.insert(id);
    }

    /// Leaves no accept state.
    pub fn clear_accept_states(&mut self)
        requires
            old(self).wf(),
        ensures
            final(self).wf(),
            final(self)@ == (DenseModel { accept: Set::empty(), ..old(self)@ }),
    {
        self.accept_states.clear();
    }

    /// The distance between the rows of two states.
    pub fn stride(&self) -> (r: usize)
        requires
            self.wf(),
        ensures
            r == self@.stride(),
    {
        self.out_transitions.stride()
    }

    /// The number of states, the trap included.
    pub fn number_of_states(&self) -> (r: u128)
        requires
            self.wf(),
        ensures
            r == self@.states,
    {
        self.out_transitions.number_of_states() as u128
    }

    /// The symbols in the order of their columns.
    pub fn alphabet(&self) -> (r: &Vec<u8>)
        ensures
            r@ == self@.alphabet,
    {
        &self.alphabet
    }

    /// The start state, which must be set.
    pub fn start_state(&self) -> (r: u128)
        requires
            self@.start is Some,
        ensures
            Some(r) == self@.start,
    {
        self.start_state.unwrap()
    }

    /// The accept states.
    pub fn accept_states(&self) -> (r: &HashSet<u128>)
        ensures
            r@ == self@.accept,
    {
        &self.accept_states
    }

    /// The successor of state `from` on `input`. It fails for a state that
    /// the automaton does not have, and then for a symbol that the alphabet
    /// does not hold.
    pub fn delta(&self, from: u128, input: u8) -> (r: Result<u128, DeltaError>)
        requires
            self.wf(),
        ensures
            r == (if from >= self@.states {
                Err::<u128, DeltaError>(DeltaError::UnknownState)
            } else if !self@.alphabet.contains(input) {
                Err(DeltaError::UnknownSymbol)
            } else {
                Ok(self@.next(from, input))
            }),
    {
        if from >= self.out_transitions.number_of_states() as u128 {
            return Err(DeltaError::UnknownState);
        }
        if !contains_symbol(&self.alphabet, input) {
            return Err(DeltaError::UnknownSymbol);
        }
        let stride: usize = self.out_transitions.stride();
        let column: usize = self.alphabet_index_of(input);
        proof {
            lemma_bits_from(self@.alphabet.len(), 0);
            lemma_cell_in_table(from as int, column as int, self@.states as int, stride as int);
        }
        Ok(self.delta_by_tran_index((from as usize) * stride + column))
    }

    /// The predecessors that stand in cell `index` of the predecessor
    /// table.
    pub fn in_transitions_at(&self, index: usize) -> (r: &Vec<u128>)
        requires
            index < self@.ins.len(),
        ensures
            r@ == self@.ins[index as int],
    {
        &self.in_transitions.trans[index]
    }

    /// The number of cells of each of the two tables.
    pub fn table_len(&self) -> (r: usize)
        ensures
            r == self@.out.len(),
    {
        self.out_transitions.trans.len()
    }

    /// The successor that stands in cell `index` of the table.
    pub fn delta_by_tran_index(&self, index: usize) -> (r: u128)
        requires
            index < self@.out.len(),
        ensures
            r == self@.out[index as int],
    {
        self.out_transitions.trans[index]
    }

    /// Whether state `state` leads to the trap on every symbol.
    pub fn is_no_way_out(&self, state: u128) -> (r: bool)
        requires
            self.wf(),
            state < self@.states,
        ensures
            r == forall|k: int| 0 <= k < self@.stride() ==> #[trigger] self@.at(state as int, k) == 0,
    {
        let stride: usize = self.out_transitions.stride();
        let mut k: usize = 0;
        while k < stride
            invariant
                k <= stride,
                self.wf(),
                state < self@.states,
                stride == self@.stride(),
                forall|j: int| 0 <= j < k ==> #[trigger] self@.at(state as int, j) == 0,
            decreases stride - k,
        {
            proof {
                lemma_cell_in_table(state as int, k as int, self@.states as int, stride as int);
            }
            if self.out_transitions.trans[(state as usize) * stride + k] != 0 {
                assert(self@.at(state as int, k as int) != 0);
                return false;
            }
            k += 1;
        }
        true
    }
}

/// Whether some symbol occurs twice in `v`.
pub fn has_duplicates(v: &Vec<u8>) -> (r: bool)
    ensures
        r == !v@.no_duplicates(),
{
    let mut i: usize = 0;
    while i < v.len()
        invariant
            i <= v.len(),
            forall|a: int, b: int| 0 <= a < i && 0 <= b < v@.len() && a != b ==> v@[a] != v@[b],
        decreases v.len() - i,
    {
        let mut j: usize = 0;
        while j < v.len()
            invariant
                i < v.len(),
                j <= v.len(),
                forall|b: int| 0 <= b < j && b != i ==> v@[i as int] != v@[b],
            decreases v.len() - j,
        {
            if j != i && v[i] == v[j] {
                return true;
            }
            j += 1;
        }
        i += 1;
    }
    false
}

/// Whether `a` occurs in `v`.
pub fn contains_symbol(v: &Vec<u8>, a: u8) -> (r: bool)
    ensures
        r == v@.contains(a),
{
    let mut i: usize = 0;
    while i < v.len()
        invariant
            i <= v.len(),
            forall|j: int| 0 <= j < i ==> v@[j] != a,
        decreases v.len() - i,
    {
        if v[i] == a {
            return true;
        }
        i += 1;
    }
    false
}

impl DenseModel {
    /// While row `from` is filled and its columns below `k` are done: the
    /// predecessor table counts `from` in the columns below `k` and the
    /// states below `from` in all columns.
    pub open spec fn ins_right_within(self, from: int, k: int) -> bool {
        forall|t: int, c: int|
            0 <= t < self.states && 0 <= c < self.alphabet.len() ==> #[trigger] self.in_at(t, c)
                == self.preds_upto(
                t as u128,
                c,
                if c < k {
                    from + 1
                } else {
                    from
                },
            )
    }

    /// `self` with the successor of `from` in column `k` set to `to`, and
    /// `from` noted among the predecessors of `to`.
    pub open spec fn with_move(self, from: int, k: int, to: u128) -> DenseModel {
        DenseModel {
            out: self.out.update(from * self.stride() + k, to),
            ins: self.ins.update(to * self.stride() + k, self.in_at(to as int, k).push(from as u128)),
            ..self
        }
    }

    /// The rows other than `from` are those of `other`.
    pub open spec fn same_rows_but(self, other: DenseModel, from: int) -> bool {
        forall|s: int, c: int|
            0 <= s < self.states && s != from && 0 <= c < self.stride() ==> #[trigger] self.at(s, c)
                == other.at(s, c)
    }
}

/// What one move does to the cells of the two tables.
pub proof fn lemma_with_move_cells(a: DenseModel, from: int, k: int, to: u128)
    requires
        a.wf(),
        0 <= from < a.states,
        0 <= k < a.alphabet.len(),
        to < a.states,
    ensures
        a.with_move(from, k, to).wf(),
        forall|s: int, c: int|
            0 <= s < a.states && 0 <= c < a.stride() ==> #[trigger] a.with_move(from, k, to).at(s, c)
                == (if s == from && c == k {
                to
            } else {
                a.at(s, c)
            }),
        forall|t: int, c: int|
            0 <= t < a.states && 0 <= c < a.stride() ==> #[trigger] a.with_move(from, k, to).in_at(
                t,
                c,
            ) == (if t == to && c == k {
                a.in_at(t, c).push(from as u128)
            } else {
                a.in_at(t, c)
            }),
{
    let b = a.with_move(from, k, to);
    let stride = a.stride() as int;
    lemma_bits_from(a.alphabet.len(), 0);
    lemma_cell_in_table(from, k, a.states as int, stride);
    lemma_cell_in_table(to as int, k, a.states as int, stride);
    assert forall|s: int, c: int| 0 <= s < a.states && 0 <= c < a.stride() implies #[trigger] b.at(
        s,
        c,
    ) == (if s == from && c == k {
        to
    } else {
        a.at(s, c)
    }) by {
        lemma_cell_in_table(s, c, a.states as int, stride);
        if s * stride + c == from * stride + k {
            lemma_cells_differ(s, c, from, k, stride);
        }
    }
    assert forall|t: int, c: int|
        0 <= t < a.states && 0 <= c < a.stride() implies #[trigger] b.in_at(t, c) == (if t == to
        && c == k {
        a.in_at(t, c).push(from as u128)
    } else {
        a.in_at(t, c)
    }) by {
        lemma_cell_in_table(t, c, a.states as int, stride);
        if t * stride + c == to * stride + k {
            lemma_cells_differ(t, c, to as int, k, stride);
        }
    }
}

/// One move in row `from` and column `k` leaves the other rows and the
/// unused cells as they are.
pub proof fn lemma_fill_frame(a: DenseModel, b: DenseModel, from: int, k: int, to: u128)
    requires
        a.wf(),
        0 <= from < a.states,
        0 <= k < a.alphabet.len(),
        to < a.states,
        b == a.with_move(from, k, to),
    ensures
        b.same_rows_but(a, from),
        a.padding_clear() ==> b.padding_clear(),
        forall|c: int| 0 <= c < a.stride() && c != k ==> #[trigger] b.at(from, c) == a.at(from, c),
        b.at(from, k) == to,
{
    lemma_with_move_cells(a, from, k, to);
    lemma_bits_from(a.alphabet.len(), 0);
    assert forall|s: int, c: int| 0 <= s < b.states && s != from && 0 <= c < b.stride() implies #[trigger] b.at(
        s,
        c,
    ) == a.at(s, c) by {
        assert(a.with_move(from, k, to).at(s, c) == a.at(s, c));
    }
    if a.padding_clear() {
        assert forall|s: int, c: int|
            0 <= s < b.states && b.alphabet.len() <= c < b.stride() implies #[trigger] b.at(s, c)
            == 0 && b.in_at(s, c).len() == 0 by {
            assert(a.with_move(from, k, to).at(s, c) == a.at(s, c));
            assert(a.with_move(from, k, to).in_at(s, c) == a.in_at(s, c));
            assert(a.at(s, c) == 0 && a.in_at(s, c).len() == 0);
        }
    }
    assert forall|c: int| 0 <= c < a.stride() && c != k implies #[trigger] b.at(from, c) == a.at(
        from,
        c,
    ) by {
        assert(a.with_move(from, k, to).at(from, c) == a.at(from, c));
    }
    assert(a.with_move(from, k, to).at(from, k) == to);
}

/// Rows that two automata share with a third they share with each other.
pub proof fn lemma_same_rows_trans(a: DenseModel, b: DenseModel, c: DenseModel, from: int)
    requires
        a.same_rows_but(b, from),
        b.same_rows_but(c, from),
        a.states == b.states,
        a.bits == b.bits,
    ensures
        a.same_rows_but(c, from),
{
    assert forall|s: int, k: int| 0 <= s < a.states && s != from && 0 <= k < a.stride() implies #[trigger] a.at(
        s,
        k,
    ) == c.at(s, k) by {
        assert(a.at(s, k) == b.at(s, k));
        assert(b.at(s, k) == c.at(s, k));
    }
}

/// One move more in row `from` keeps the predecessor table right.
pub proof fn lemma_fill_step(a: DenseModel, from: int, k: int, to: u128)
    requires
        a.wf(),
        0 <= from < a.states,
        0 <= k < a.alphabet.len(),
        to < a.states,
        a.ins_right_within(from, k),
    ensures
        a.with_move(from, k, to).ins_right_within(from, k + 1),
{
    let b = a.with_move(from, k, to);
    lemma_with_move_cells(a, from, k, to);
    lemma_bits_from(a.alphabet.len(), 0);
    assert forall|t: int, c: int|
        0 <= t < b.states && 0 <= c < b.alphabet.len() implies #[trigger] b.in_at(t, c)
        == b.preds_upto(
        t as u128,
        c,
        if c < k + 1 {
            from + 1
        } else {
            from
        },
    ) by {
        assert(a.in_at(t, c) == a.preds_upto(
            t as u128,
            c,
            if c < k {
                from + 1
            } else {
                from
            },
        ));
        assert forall|s: int| 0 <= s < from implies #[trigger] a.at(s, c) == b.at(s, c) by {}
        lemma_preds_frame(a, b, t as u128, c, from);
        if c != k {
            assert forall|s: int| 0 <= s < from + 1 implies #[trigger] a.at(s, c) == b.at(s, c) by {}
            lemma_preds_frame(a, b, t as u128, c, from + 1);
        } else {
            assert(b.at(from, k) == to);
        }
    }
}

impl DenseDFA {
    /// Fills row `from` with `targets`, column by column. The rows below
    /// `from` must be filled and the rows from `from` on blank.
    fn fill_row(&mut self, from: u128, targets: &Vec<u128>)
        requires
            old(self).wf(),
            from < old(self)@.states,
            targets@.len() == old(self)@.alphabet.len(),
            forall|k: int| 0 <= k < targets@.len() ==> (#[trigger] targets@[k]) < old(self)@.states,
            old(self)@.ins_right_upto(from as int),
            old(self)@.padding_clear(),
            old(self)@.blank_from(from as int),
        ensures
            final(self).wf(),
            final(self)@.alphabet == old(self)@.alphabet,
            final(self)@.states == old(self)@.states,
            final(self)@.bits == old(self)@.bits,
            final(self)@.start == old(self)@.start,
            final(self)@.accept == old(self)@.accept,
            final(self)@.same_rows_but(old(self)@, from as int),
            forall|k: int|
                0 <= k < targets@.len() ==> #[trigger] final(self)@.at(from as int, k) == targets@[k],
            final(self)@.ins_right_upto(from + 1),
            final(self)@.padding_clear(),
            final(self)@.blank_from(from + 1),
    {
        let n: usize = targets.len();
        let mut k: usize = 0;
        proof {
            lemma_bits_from(self@.alphabet.len(), 0);
        }
        while k < n
            invariant
                k <= n,
                n == targets@.len(),
                self.wf(),
                from < self@.states,
                self@.alphabet == old(self)@.alphabet,
                self@.states == old(self)@.states,
                self@.bits == old(self)@.bits,
                self@.start == old(self)@.start,
                self@.accept == old(self)@.accept,
                targets@.len() == self@.alphabet.len(),
                self@.alphabet.len() <= self@.stride(),
                forall|k: int| 0 <= k < targets@.len() ==> (#[trigger] targets@[k]) < self@.states,
                self@.same_rows_but(old(self)@, from as int),
                forall|c: int| 0 <= c < k ==> #[trigger] self@.at(from as int, c) == targets@[c],
                forall|c: int| k <= c < self@.stride() ==> #[trigger] self@.at(from as int, c) == 0,
                self@.ins_right_within(from as int, k as int),
                self@.padding_clear(),
            decreases n - k,
        {
            let input: u8 = self.alphabet[k];
            let to: u128 = targets[k];
            let ghost before = self@;
            proof {
                assert(self@.wf());
                lemma_first_index(before.alphabet, input, k as int);
                assert(before.alphabet.contains(input));
            }
            self.add_transition(from, input, to);
            proof {
                let after = self@;
                assert(after == before.with_move(from as int, k as int, to));
                lemma_fill_step(before, from as int, k as int, to);
                lemma_fill_frame(before, after, from as int, k as int, to);
                lemma_same_rows_trans(after, before, old(self)@, from as int);
                assert forall|c: int| 0 <= c < k + 1 implies #[trigger] after.at(from as int, c)
                    == targets@[c] by {
                    if c < k {
                        assert(before.at(from as int, c) == targets@[c]);
                    }
                }
                assert forall|c: int| k + 1 <= c < after.stride() implies #[trigger] after.at(
                    from as int,
                    c,
                ) == 0 by {
                    assert(before.at(from as int, c) == 0);
                }
            }
            k += 1;
        }
        proof {
            let last = self@;
            assert forall|t: int, c: int|
                0 <= t < last.states && 0 <= c < last.alphabet.len() implies #[trigger] last.in_at(
                t,
                c,
            ) == last.preds_upto(t as u128, c, from + 1) by {}
            assert forall|s: int, c: int|
                from + 1 <= s < last.states && 0 <= c < last.stride() implies #[trigger] last.at(
                s,
                c,
            ) == 0 by {
                assert(last.at(s, c) == old(self)@.at(s, c));
            }
        }
    }
}

/// A copy of `s`.
pub fn copy_set(s: &HashSet<u128>) -> (r: HashSet<u128>)
    ensures
        r@ == s@,
{
    let all: Vec<u128> = crate::dfa::members(s);
    let mut r: HashSet<u128> = HashSet::new();
    let mut i: usize = 0;
    while i < all.len()
        invariant
            i <= all.len(),
            r@ == all@.take(i as int).to_set(),
        decreases all.len() - i,
    {
        r.insert(all[i]);
        assert(all@.take(i + 1) =~= all@.take(i as int).push(all@[i as int]));
        assert(r@ =~= all@.take(i + 1).to_set()) by {
            assert forall|x: u128| r@.contains(x) <==> all@.take(i + 1).to_set().contains(x) by {
                crate::graph::lemma_push_contains(all@.take(i as int), all@[i as int], x);
            }
        }
        i += 1;
    }
    assert(all@.take(all@.len() as int) =~= all@);
    r
}

/// What a dense automaton is made from: its size, its alphabet, the start
/// and accept states under their old ids, and the map from old ids to new
/// ones.
struct DfaConfig {
    number_of_states: usize,
    alphabet: Vec<u8>,
    start_state_id: u128,
    accept_states: HashSet<u128>,
    id_map: HashMap<u128, u128>,
}

impl DfaConfig {
    /// The tables fit the machine and the map knows the start and accept
    /// states.
    spec fn valid(&self) -> bool {
        &&& self.alphabet@.len() <= 256
        &&& self.alphabet@.no_duplicates()
        &&& self.number_of_states * pow2(stride_bits(self.alphabet@.len())) <= usize::MAX
        &&& self.id_map@.contains_key(self.start_state_id)
        &&& forall|x: u128| #[trigger]
            self.accept_states@.contains(x) ==> self.id_map@.contains_key(x)
    }

    /// The new ids of the accept states.
    spec fn new_accept(&self) -> Set<u128> {
        Set::new(|y: u128| exists|x: u128| self.accept_states@.contains(x) && self.id_map@[x] == y)
    }

    /// The configuration of the dense automaton for `dfa`: the states are
    /// numbered in the ascending order of their ids.
    fn new_from_01(dfa: &DFA01) -> (config: DfaConfig)
        requires
            dfa@.start is Some,
        ensures
            config.number_of_states == dfa@.states.len(),
            dfa@.states.dom().finite(),
            config.alphabet@ == seq![dfa@.alphabet.0, dfa@.alphabet.1],
            Some(config.start_state_id) == dfa@.start,
            config.accept_states@ == dfa@.accept,
            maps_to_rank(dfa@, &config),
    {
        let entries: Vec<(u128, State01)> = dfa.states_with_id_iter();
        let mut id_map: HashMap<u128, u128> = HashMap::new();
        let mut i: usize = 0;
        while i < entries.len()
            invariant
                i <= entries.len(),
                forall|a: int, b: int| 0 <= a < b < entries@.len() ==> entries@[a].0 < entries@[b].0,
                forall|id: u128| #[trigger]
                    id_map@.contains_key(id) <==> exists|k: int|
                        0 <= k < i && (#[trigger] entries@[k]).0 == id,
                forall|k: int| 0 <= k < i ==> id_map@[(#[trigger] entries@[k]).0] == k,
            decreases entries.len() - i,
        {
            let ghost before = id_map@;
            id_map.insert(entries[i].0, i as u128);
            proof {
                assert forall|id: u128| #[trigger] id_map@.contains_key(id) <==> exists|k: int|
                    0 <= k < i + 1 && (#[trigger] entries@[k]).0 == id by {
                    if before.contains_key(id) {
                        let k = choose|k: int| 0 <= k < i && (#[trigger] entries@[k]).0 == id;
                        assert(0 <= k < i + 1 && entries@[k].0 == id);
                    }
                    if id == entries@[i as int].0 {
                        assert(0 <= i < i + 1 && entries@[i as int].0 == id);
                    }
                    if exists|k: int| 0 <= k < i + 1 && (#[trigger] entries@[k]).0 == id {
                        let k = choose|k: int| 0 <= k < i + 1 && (#[trigger] entries@[k]).0 == id;
                        if k < i {
                            assert(before.contains_key(id));
                        }
                    }
                }
                assert forall|k: int| 0 <= k < i + 1 implies id_map@[(#[trigger] entries@[k]).0]
                    == k by {
                    if k < i {
                        assert(entries@[k].0 < entries@[i as int].0);
                        assert(before[entries@[k].0] == k);
                    }
                }
            }
            i += 1;
        }
        let mut alphabet: Vec<u8> = Vec::new();
        alphabet.push(dfa.alphabet().0);
        alphabet.push(dfa.alphabet().1);
        let config = DfaConfig {
            number_of_states: entries.len(),
            alphabet,
            start_state_id: dfa.start_state(),
            accept_states: copy_set(dfa.accept_states()),
            id_map,
        };
        proof {
            assert(config.alphabet@ =~= seq![dfa@.alphabet.0, dfa@.alphabet.1]);
            assert forall|id: u128| #[trigger]
                config.id_map@.contains_key(id) <==> dfa@.states.contains_key(id) by {
                if dfa@.states.contains_key(id) {
                    let k = dfa@.rank(id) as int;
                    assert(entries@[k].0 == id);
                    assert(0 <= k < entries@.len() && entries@[k].0 == id);
                }
                if config.id_map@.contains_key(id) {
                    let k = choose|k: int|
                        0 <= k < entries@.len() && (#[trigger] entries@[k]).0 == id;
                    assert(dfa@.states.contains_key(entries@[k].0));
                }
            }
            assert forall|id: u128| dfa@.states.contains_key(id) implies #[trigger]
                config.id_map@[id] == dfa@.rank(id) by {
                let k = dfa@.rank(id) as int;
                assert(entries@[k].0 == id);
            }
        }
        config
    }
}

impl DenseDFA {
    /// The automaton of `config`, without moves yet.
    fn init_with_config(config: &DfaConfig) -> (dfa: DenseDFA)
        requires
            config.valid(),
        ensures
            dfa.wf(),
            dfa@.alphabet == config.alphabet@,
            dfa@.states == config.number_of_states,
            dfa@.blank_from(0),
            dfa@.ins_right_upto(0),
            dfa@.padding_clear(),
            dfa@.start == Some(config.id_map@[config.start_state_id]),
            dfa@.accept == config.new_accept(),
    {
        let len: usize = config.alphabet.len();
        let old_accept: Vec<u128> = crate::dfa::members(&config.accept_states);
        let mut accept_states: HashSet<u128> = HashSet::new();
        let mut i: usize = 0;
        while i < old_accept.len()
            invariant
                i <= old_accept.len(),
                config.valid(),
                old_accept@.to_set() == config.accept_states@,
                forall|y: u128|
                    #[trigger] accept_states@.contains(y) <==> exists|k: int|
                        0 <= k < i && config.id_map@[#[trigger] old_accept@[k]] == y,
            decreases old_accept.len() - i,
        {
            let ghost before = accept_states@;
            let x: u128 = old_accept[i];
            assert(old_accept@.to_set().contains(x));
            let y: u128 = *config.id_map.get(&x).unwrap();
            accept_states.insert(y);
            proof {
                assert forall|z: u128| #[trigger] accept_states@.contains(z) <==> exists|k: int|
                    0 <= k < i + 1 && config.id_map@[#[trigger] old_accept@[k]] == z by {
                    if before.contains(z) {
                        let k = choose|k: int|
                            0 <= k < i && config.id_map@[#[trigger] old_accept@[k]] == z;
                        assert(0 <= k < i + 1 && config.id_map@[old_accept@[k]] == z);
                    }
                    if z == y {
                        assert(0 <= i < i + 1 && config.id_map@[old_accept@[i as int]] == z);
                    }
                    if exists|k: int|
                        0 <= k < i + 1 && config.id_map@[#[trigger] old_accept@[k]] == z {
                        let k = choose|k: int|
                            0 <= k < i + 1 && config.id_map@[#[trigger] old_accept@[k]] == z;
                        if k < i {
                            assert(before.contains(z));
                        }
                    }
                }
            }
            i += 1;
        }
        let start: u128 = *config.id_map.get(&config.start_state_id).unwrap();
        let dfa = DenseDFA {
            alphabet: config.alphabet.clone(),
            out_transitions: Transisions::<u128>::new_with_num_and_stride(
                config.number_of_states,
                len,
            ),
            in_transitions: Transisions::<Vec<u128>>::new_with_num_and_stride(
                config.number_of_states,
                len,
            ),
            start_state: Some(start),
            accept_states,
        };
        proof {
            let m = dfa@;
            lemma_bits_from(len as nat, 0);
            assert(m.accept =~= config.new_accept()) by {
                assert forall|y: u128| m.accept.contains(y) <==> config.new_accept().contains(
                    y,
                ) by {
                    if m.accept.contains(y) {
                        let k = choose|k: int|
                            0 <= k < old_accept@.len() && config.id_map@[#[trigger] old_accept@[k]]
                                == y;
                        assert(old_accept@.to_set().contains(old_accept@[k]));
                    }
                    if config.new_accept().contains(y) {
                        let x = choose|x: u128|
                            config.accept_states@.contains(x) && config.id_map@[x] == y;
                        assert(old_accept@.to_set().contains(x));
                        let k = choose|k: int| 0 <= k < old_accept@.len() && old_accept@[k] == x;
                        assert(config.id_map@[old_accept@[k]] == y);
                    }
                }
            }
            assert forall|s: int, k: int|
                0 <= s < m.states && 0 <= k < m.stride() implies #[trigger] m.at(s, k) == 0
                && m.in_at(s, k).len() == 0 by {
                lemma_cell_in_table(s, k, m.states as int, m.stride() as int);
            }
            assert forall|t: int, k: int|
                0 <= t < m.states && 0 <= k < m.alphabet.len() implies #[trigger] m.in_at(t, k)
                == m.preds_upto(t as u128, k, 0) by {
                lemma_cell_in_table(t, k, m.states as int, m.stride() as int);
                assert(m.in_at(t, k).len() == 0);
                assert(m.in_at(t, k) =~= Seq::empty());
            }
        }
        dfa
    }
}

/// `d` is the automaton `s` with its states numbered in the ascending order
/// of their ids: the tables hold the moves of `s` under the new numbers, and
/// so do the start state and the accept states.
pub open spec fn dense_of(s: DfaModel, d: DenseModel) -> bool {
    &&& d.wf()
    &&& d.alphabet == seq![s.alphabet.0, s.alphabet.1]
    &&& d.states == s.states.len()
    &&& forall|id: u128| s.states.contains_key(id) ==> (#[trigger] s.rank(id)) < d.states
    &&& forall|id: u128|
        s.states.contains_key(id) ==> d.at(s.rank(id) as int, 0) == s.rank(
            (#[trigger] s.states[id]).0,
        ) && d.at(s.rank(id) as int, 1) == s.rank(s.states[id].1)
    &&& d.start == Some(s.rank(s.start->Some_0) as u128)
    &&& d.accept == Set::new(|y: u128| exists|x: u128| s.accept.contains(x) && s.rank(x) == y)
    &&& d.ins_right_upto(d.states as int)
    &&& d.padding_clear()
}

/// The map of `config` sends each state of `s` to its place among the
/// states in ascending order.
spec fn maps_to_rank(s: DfaModel, config: &DfaConfig) -> bool {
    &&& forall|id: u128| #[trigger] config.id_map@.contains_key(id) <==> s.states.contains_key(id)
    &&& forall|id: u128| s.states.contains_key(id) ==> #[trigger] config.id_map@[id] == s.rank(id)
}

/// The new accept states of a configuration that maps to ranks are the
/// ranks of the accept states.
proof fn lemma_accept_ranks(s: DfaModel, config: &DfaConfig)
    requires
        s.closed(),
        maps_to_rank(s, config),
        config.accept_states@ == s.accept,
    ensures
        config.new_accept() == Set::new(
            |y: u128| exists|x: u128| s.accept.contains(x) && s.rank(x) == y,
        ),
{
    let ranks = Set::new(|y: u128| exists|x: u128| s.accept.contains(x) && s.rank(x) == y);
    assert forall|y: u128| config.new_accept().contains(y) <==> ranks.contains(y) by {
        if config.new_accept().contains(y) {
            let x = choose|x: u128| config.accept_states@.contains(x) && config.id_map@[x] == y;
            assert(s.states.contains_key(x));
            assert(s.accept.contains(x) && s.rank(x) == y);
        }
        if ranks.contains(y) {
            let x = choose|x: u128| s.accept.contains(x) && s.rank(x) == y;
            assert(s.states.contains_key(x));
            assert(config.accept_states@.contains(x) && config.id_map@[x] == y);
        }
    }
    assert(config.new_accept() =~= ranks);
}

/// An alphabet of two symbols has a stride of two.
proof fn lemma_stride_of_two()
    ensures
        stride_bits(2) == 1,
        pow2(1) == 2,
{
    lemma_small_pow2(0);
    lemma_small_pow2(1);
    assert(bits_from(2, 1) == 1);
    assert(bits_from(2, 0) == bits_from(2, 1));
}

impl DenseDFA {
    /// Fills the rows of the states of `sparse_dfa`, in the ascending order
    /// of their ids.
    fn fill_from_sparse(&mut self, sparse_dfa: &DFA01, config: &DfaConfig)
        requires
            old(self).wf(),
            sparse_dfa@.closed(),
            maps_to_rank(sparse_dfa@, config),
            old(self)@.alphabet == seq![ZERO, ONE],
            old(self)@.states == sparse_dfa@.states.len(),
            old(self)@.blank_from(0),
            old(self)@.ins_right_upto(0),
            old(self)@.padding_clear(),
        ensures
            final(self).wf(),
            final(self)@.alphabet == old(self)@.alphabet,
            final(self)@.states == old(self)@.states,
            final(self)@.start == old(self)@.start,
            final(self)@.accept == old(self)@.accept,
            final(self)@.ins_right_upto(final(self)@.states as int),
            final(self)@.padding_clear(),
            forall|s: int, k: int|
                0 <= s < final(self)@.states && 0 <= k < final(self)@.alphabet.len()
                    ==> #[trigger] final(self)@.at(s, k) < final(self)@.states,
            forall|id: u128|
                sparse_dfa@.states.contains_key(id) ==> (#[trigger] sparse_dfa@.rank(id)) < final(self)@.states,
            forall|id: u128|
                sparse_dfa@.states.contains_key(id) ==> final(self)@.at(
                    sparse_dfa@.rank(id) as int,
                    0,
                ) == sparse_dfa@.rank((#[trigger] sparse_dfa@.states[id]).0) && final(self)@.at(
                    sparse_dfa@.rank(id) as int,
                    1,
                ) == sparse_dfa@.rank(sparse_dfa@.states[id].1),
    {
        let ghost s = sparse_dfa@;
        let entries: Vec<(u128, State01)> = sparse_dfa.states_with_id_iter();
        let n: usize = entries.len();
        let mut new_id: usize = 0;
        proof {
            self.lemma_wf();
            lemma_stride_of_two();
        }
        while new_id < n
            invariant
                new_id <= n,
                n == entries@.len(),
                n == s.states.len(),
                s == sparse_dfa@,
                s.closed(),
                maps_to_rank(s, config),
                self.wf(),
                self@.alphabet == seq![ZERO, ONE],
                self@.stride() == 2,
                self@.states == n,
                self@.start == old(self)@.start,
                self@.accept == old(self)@.accept,
                self@.blank_from(new_id as int),
                self@.ins_right_upto(new_id as int),
                self@.padding_clear(),
                forall|i: int|
                    0 <= i < entries@.len() ==> s.states.contains_key((#[trigger] entries@[i]).0)
                        && s.states[entries@[i].0] == entries@[i].1@ && s.rank(entries@[i].0) == i,
                forall|x: u128| s.states.contains_key(x) ==> (#[trigger] s.rank(x)) < entries@.len(),
                forall|x: u128|
                    s.states.contains_key(x) ==> (#[trigger] entries@[s.rank(x) as int]).0 == x,
                forall|i: int|
                    0 <= i < new_id ==> self@.at(i, 0) == s.rank((#[trigger] entries@[i]).1@.0)
                        && self@.at(i, 1) == s.rank(entries@[i].1@.1),
            decreases n - new_id,
        {
            let state: State01 = entries[new_id].1;
            let moves: (u128, u128) = state.transitions();
            let ghost before = self@;
            proof {
                let id = entries@[new_id as int].0;
                assert(s.states.contains_key(id));
                let next = s.states[id];
                assert(s.states.contains_key(next.0) && s.states.contains_key(next.1));
                assert(config.id_map@.contains_key(moves.0));
                assert(config.id_map@.contains_key(moves.1));
                assert(config.id_map@[moves.0] == s.rank(moves.0));
                assert(config.id_map@[moves.1] == s.rank(moves.1));
                lemma_rank_in_range(s, entries@, moves.0);
                lemma_rank_in_range(s, entries@, moves.1);
            }
            let mut targets: Vec<u128> = Vec::new();
            targets.push(*config.id_map.get(&moves.0).unwrap());
            targets.push(*config.id_map.get(&moves.1).unwrap());
            self.fill_row(new_id as u128, &targets);
            proof {
                assert forall|i: int| 0 <= i < new_id + 1 implies self@.at(i, 0) == s.rank(
                    (#[trigger] entries@[i]).1@.0,
                ) && self@.at(i, 1) == s.rank(entries@[i].1@.1) by {
                    if i < new_id {
                        assert(self@.at(i, 0) == before.at(i, 0));
                        assert(self@.at(i, 1) == before.at(i, 1));
                    } else {
                        assert(self@.at(new_id as int, 0) == targets@[0]);
                        assert(self@.at(new_id as int, 1) == targets@[1]);
                    }
                }
            }
            new_id += 1;
        }
        proof {
            let d = self@;
            assert forall|id: u128| s.states.contains_key(id) implies d.at(s.rank(id) as int, 0)
                == s.rank((#[trigger] s.states[id]).0) && d.at(s.rank(id) as int, 1) == s.rank(
                s.states[id].1,
            ) by {
                lemma_rank_in_range(s, entries@, id);
                let i = s.rank(id) as int;
                assert(entries@[i].0 == id);
            }
            assert forall|i: int, k: int|
                0 <= i < d.states && 0 <= k < d.alphabet.len() implies #[trigger] d.at(i, k)
                < d.states by {
                let id = entries@[i].0;
                let next = s.states[id];
                assert(s.states.contains_key(next.0) && s.states.contains_key(next.1));
                lemma_rank_in_range(s, entries@, next.0);
                lemma_rank_in_range(s, entries@, next.1);
            }
        }
    }

    /// The dense automaton for `sparse_dfa`: see [`dense_of`].
    pub fn build_from_sparse01_dfa(sparse_dfa: &DFA01) -> (dense_dfa: DenseDFA)
        requires
            sparse_dfa@.closed(),
            sparse_dfa@.alphabet == (ZERO, ONE),
            sparse_dfa@.states.len() * 2 <= usize::MAX,
        ensures
            dense_dfa.wf(),
            dense_of(sparse_dfa@, dense_dfa@),
            dense_dfa@.closed(),
    {
        let config: DfaConfig = DfaConfig::new_from_01(sparse_dfa);
        proof {
            lemma_stride_of_two();
            lemma_accept_ranks(sparse_dfa@, &config);
            assert(config.alphabet@[0] == ZERO && config.alphabet@[1] == ONE);
            let start = sparse_dfa@.start->Some_0;
            assert(sparse_dfa@.states.contains_key(start));
            assert(config.id_map@.contains_key(start));
            assert(config.id_map@[start] == sparse_dfa@.rank(start));
            assert forall|x: u128| #[trigger]
                config.accept_states@.contains(x) implies config.id_map@.contains_key(x) by {
                assert(sparse_dfa@.states.contains_key(x));
            }
        }
        let mut dense_dfa: DenseDFA = DenseDFA::init_with_config(&config);
        dense_dfa.fill_from_sparse(sparse_dfa, &config);
        proof {
            dense_dfa.lemma_wf();
            let s = sparse_dfa@;
            let d = dense_dfa@;
            assert(d.alphabet == seq![s.alphabet.0, s.alphabet.1]);
            assert(d.states == s.states.len());
            assert(d.start == Some(s.rank(s.start->Some_0) as u128));
            assert(d.accept == Set::new(
                |y: u128| exists|x: u128| s.accept.contains(x) && s.rank(x) == y,
            ));
            assert(s.states.contains_key(s.start->Some_0));
            assert(s.rank(s.start->Some_0) < d.states);
            assert forall|y: u128| #[trigger] d.accept.contains(y) implies y < d.states by {
                let x = choose|x: u128| s.accept.contains(x) && s.rank(x) == y;
                assert(s.states.contains_key(x));
                assert(s.rank(x) < d.states);
            }

        }
        dense_dfa
    }
}

/// A state's place among the ascending entries lies within them.
proof fn lemma_rank_in_range(s: DfaModel, entries: Seq<(u128, State01)>, id: u128)
    requires
        s.states.contains_key(id),
        entries.len() == s.states.len(),
        forall|i: int|
            0 <= i < entries.len() ==> s.states.contains_key((#[trigger] entries[i]).0) && s.rank(
                entries[i].0,
            ) == i,
        forall|x: u128| s.states.contains_key(x) ==> (#[trigger] s.rank(x)) < entries.len(),
        forall|x: u128| s.states.contains_key(x) ==> (#[trigger] entries[s.rank(x) as int]).0 == x,
    ensures
        s.rank(id) < entries.len(),
        entries[s.rank(id) as int].0 == id,
{
}

impl DenseModel {
    /// `w` is a word over the alphabet.
    pub open spec fn word(self, w: Seq<u8>) -> bool {
        forall|i: int| 0 <= i < w.len() ==> self.alphabet.contains(#[trigger] w[i])
    }

    /// The state that reading `w` from state `s` leads to.
    pub open spec fn run(self, s: u128, w: Seq<u8>) -> u128
        decreases w.len(),
    {
        if w.len() == 0 {
            s
        } else {
            self.run(self.next(s, w[0]), w.drop_first())
        }
    }

    /// Reading `w` from state `s` leads to an accept state.
    pub open spec fn accepts_from(self, s: u128, w: Seq<u8>) -> bool {
        self.accept.contains(self.run(s, w))
    }

    /// The automaton accepts `w`.
    pub open spec fn accepts(self, w: Seq<u8>) -> bool {
        self.start matches Some(s) && self.accepts_from(s, w)
    }

    /// The word `w` tells `p` from `q`: from one it leads to an accept
    /// state, from the other it does not.
    pub open spec fn tells_apart(self, w: Seq<u8>, p: u128, q: u128) -> bool {
        self.word(w) && self.accepts_from(p, w) != self.accepts_from(q, w)
    }

    /// Some word tells `p` from `q`.
    pub open spec fn distinguishable(self, p: u128, q: u128) -> bool {
        exists|w: Seq<u8>| #[trigger] self.tells_apart(w, p, q)
    }

    /// No word tells `p` from `q`.
    pub open spec fn equivalent(self, p: u128, q: u128) -> bool {
        !self.distinguishable(p, q)
    }

    /// Some word tells any two states apart.
    pub open spec fn minimal(self) -> bool {
        forall|p: u128, q: u128| p < q < self.states ==> #[trigger] self.distinguishable(p, q)
    }

    /// No word tells a state from itself.
    pub proof fn lemma_equivalent_refl(self, p: u128)
        ensures
            self.equivalent(p, p),
    {
    }

    /// Equivalence does not depend on the order of the two states.
    pub proof fn lemma_equivalent_sym(self, p: u128, q: u128)
        requires
            self.equivalent(p, q),
        ensures
            self.equivalent(q, p),
    {
        if self.distinguishable(q, p) {
            let w = choose|w: Seq<u8>| #[trigger] self.tells_apart(w, q, p);
            assert(self.tells_apart(w, p, q));
        }
    }

    /// States that are equivalent to one state are equivalent.
    pub proof fn lemma_equivalent_trans(self, p: u128, q: u128, r: u128)
        requires
            self.equivalent(p, q),
            self.equivalent(q, r),
        ensures
            self.equivalent(p, r),
    {
        if self.distinguishable(p, r) {
            let w = choose|w: Seq<u8>| #[trigger] self.tells_apart(w, p, r);
            if self.accepts_from(p, w) != self.accepts_from(q, w) {
                assert(self.tells_apart(w, p, q));
            } else {
                assert(self.tells_apart(w, q, r));
            }
        }
    }

    /// Equivalent states agree on acceptance.
    pub proof fn lemma_equivalent_accept(self, p: u128, q: u128)
        requires
            self.equivalent(p, q),
        ensures
            self.accept.contains(p) == self.accept.contains(q),
    {
        let w = Seq::<u8>::empty();
        if self.accept.contains(p) != self.accept.contains(q) {
            assert(self.tells_apart(w, p, q));
        }
    }

    /// The column of the symbol in column `k` is `k`.
    pub proof fn lemma_column_of(self, k: int)
        requires
            self.alphabet.no_duplicates(),
            0 <= k < self.alphabet.len(),
        ensures
            self.column(self.alphabet[k]) == k,
            self.alphabet.contains(self.alphabet[k]),
    {
        lemma_first_index(self.alphabet, self.alphabet[k], k);
    }

    /// A word that tells the successors of two states apart, with the
    /// symbol of the move before it, tells the states apart.
    pub proof fn lemma_step_tells_apart(self, p: u128, q: u128, k: int, w: Seq<u8>)
        requires
            self.alphabet.no_duplicates(),
            0 <= k < self.alphabet.len(),
            self.tells_apart(w, self.at(p as int, k), self.at(q as int, k)),
        ensures
            self.tells_apart(seq![self.alphabet[k]] + w, p, q),
            self.distinguishable(p, q),
    {
        let a = self.alphabet[k];
        let v = seq![a] + w;
        self.lemma_column_of(k);
        assert(v.drop_first() =~= w);
        assert(v[0] == a);
        assert forall|i: int| 0 <= i < v.len() implies self.alphabet.contains(#[trigger] v[i]) by {
            if i > 0 {
                assert(v[i] == w[i - 1]);
            }
        }
        assert(self.run(p, v) == self.run(self.at(p as int, k), w));
        assert(self.run(q, v) == self.run(self.at(q as int, k), w));
    }

    /// The successors of equivalent states are equivalent.
    pub proof fn lemma_equivalent_step(self, p: u128, q: u128, k: int)
        requires
            self.alphabet.no_duplicates(),
            0 <= k < self.alphabet.len(),
            self.equivalent(p, q),
        ensures
            self.equivalent(self.at(p as int, k), self.at(q as int, k)),
    {
        let x = self.at(p as int, k);
        let y = self.at(q as int, k);
        if self.distinguishable(x, y) {
            let w = choose|w: Seq<u8>| #[trigger] self.tells_apart(w, x, y);
            self.lemma_step_tells_apart(p, q, k, w);
        }
    }
}

/// The map of `config` sends each state of `d` to its new number in the
/// quotient.
spec fn maps_to_class(d: DenseModel, config: &DfaConfig) -> bool {
    &&& forall|x: u128| #[trigger] config.id_map@.contains_key(x) <==> x < d.states
    &&& forall|x: u128| x < d.states ==> #[trigger] config.id_map@[x] == d.class_id(x)
}

impl DfaConfig {
    /// The configuration of the quotient of `dfa` by `indistin`, its
    /// classes of equivalent states.
    fn new_for_minimize(dfa: &DenseDFA, indistin: &crate::minimize::IndistinGroups) -> (config:
        DfaConfig)
        requires
            dfa.wf(),
            dfa@.closed(),
            indistin@ == dfa@.class_sets(),
        ensures
            config.valid(),
            config.number_of_states == dfa@.class_count(),
            config.alphabet@ == dfa@.alphabet,
            Some(config.start_state_id) == dfa@.start,
            config.accept_states@ == dfa@.accept,
            maps_to_class(dfa@, &config),
    {
        let ghost d = dfa@;
        proof {
            dfa.lemma_wf();
            d.lemma_class_count();
        }
        let n: u128 = dfa.number_of_states();
        let id_map: HashMap<u128, u128> = indistin.remap(n);
        let mut singles: usize = 0;
        let mut old_id: u128 = 0;
        while old_id < n
            invariant
                old_id <= n,
                n == d.states,
                n <= usize::MAX,
                indistin@ == d.class_sets(),
                singles == crate::quotient::singles_below(d.class_sets(), old_id as int),
                singles <= old_id,
            decreases n - old_id,
        {
            if indistin.contains_at(old_id).is_none() {
                singles += 1;
            }
            old_id += 1;
        }
        let number_of_states: usize = singles + indistin.num_of_groups();
        let config = DfaConfig {
            number_of_states,
            alphabet: dfa.alphabet.clone(),
            start_state_id: dfa.start_state.unwrap(),
            accept_states: copy_set(&dfa.accept_states),
            id_map,
        };
        proof {
            let stride = pow2(stride_bits(d.alphabet.len())) as int;
            lemma_bits_from(d.alphabet.len(), 0);
            assert(number_of_states * stride <= d.states * stride) by (nonlinear_arith)
                requires
                    0 <= number_of_states <= d.states,
                    0 <= stride,
            ;
        }
        config
    }
}

/// The new accept states of a configuration that maps to class numbers are
/// the class numbers of the accept states.
proof fn lemma_accept_classes(d: DenseModel, config: &DfaConfig)
    requires
        d.closed(),
        maps_to_class(d, config),
        config.accept_states@ == d.accept,
    ensures
        config.new_accept() == Set::new(
            |y: u128| exists|x: u128| d.accept.contains(x) && d.class_id(x) == y,
        ),
{
    let ids = Set::new(|y: u128| exists|x: u128| d.accept.contains(x) && d.class_id(x) == y);
    assert forall|y: u128| config.new_accept().contains(y) <==> ids.contains(y) by {
        if config.new_accept().contains(y) {
            let x = choose|x: u128| config.accept_states@.contains(x) && config.id_map@[x] == y;
            assert(x < d.states);
            assert(d.accept.contains(x) && d.class_id(x) == y);
        }
        if ids.contains(y) {
            let x = choose|x: u128| d.accept.contains(x) && d.class_id(x) == y;
            assert(x < d.states);
            assert(config.accept_states@.contains(x) && config.id_map@[x] == y);
        }
    }
    assert(config.new_accept() =~= ids);
}

impl DenseDFA {
    /// The new numbers of the successors of state `old_id` of `dfa`, column
    /// by column.
    fn mapped_row(dfa: &DenseDFA, config: &DfaConfig, old_id: u128) -> (targets: Vec<u128>)
        requires
            dfa.wf(),
            dfa@.closed(),
            maps_to_class(dfa@, config),
            old_id < dfa@.states,
        ensures
            targets@.len() == dfa@.alphabet.len(),
            forall|k: int|
                0 <= k < targets@.len() ==> (#[trigger] targets@[k]) == dfa@.class_id(
                    dfa@.at(old_id as int, k),
                ) && targets@[k] < dfa@.class_count(),
    {
        let ghost d = dfa@;
        proof {
            dfa.lemma_wf();
        }
        let len: usize = dfa.alphabet.len();
        let mut targets: Vec<u128> = Vec::new();
        let mut k: usize = 0;
        while k < len
            invariant
                k <= len,
                len == d.alphabet.len(),
                d == dfa@,
                dfa.wf(),
                d.wf(),
                d.closed(),
                maps_to_class(d, config),
                old_id < d.states,
                targets@.len() == k,
                forall|j: int|
                    0 <= j < k ==> (#[trigger] targets@[j]) == d.class_id(d.at(old_id as int, j))
                        && targets@[j] < d.class_count(),
            decreases len - k,
        {
            let to: u128 = crate::minimize::successor(dfa, old_id, k);
            proof {
                assert(config.id_map@.contains_key(to));
                d.lemma_class_id_range(to);
            }
            targets.push(*config.id_map.get(&to).unwrap());
            k += 1;
        }
        targets
    }

    /// Fills the rows of the states of `dfa` that stand alone.
    fn fill_single_rows(
        &mut self,
        dfa: &DenseDFA,
        indistin: &crate::minimize::IndistinGroups,
        config: &DfaConfig,
    )
        requires
            old(self).wf(),
            dfa.wf(),
            dfa@.closed(),
            indistin@ == dfa@.class_sets(),
            maps_to_class(dfa@, config),
            old(self)@.alphabet == dfa@.alphabet,
            old(self)@.states == dfa@.class_count(),
            old(self)@.blank_from(0),
            old(self)@.ins_right_upto(0),
            old(self)@.padding_clear(),
        ensures
            final(self).wf(),
            final(self)@.alphabet == old(self)@.alphabet,
            final(self)@.states == old(self)@.states,
            final(self)@.start == old(self)@.start,
            final(self)@.accept == old(self)@.accept,
            final(self)@.blank_from(
                crate::quotient::singles_below(dfa@.class_sets(), dfa@.states as int) as int,
            ),
            final(self)@.ins_right_upto(
                crate::quotient::singles_below(dfa@.class_sets(), dfa@.states as int) as int,
            ),
            final(self)@.padding_clear(),
            crate::quotient::single_rows_right(dfa@, final(self)@, dfa@.states as int),
    {
        let ghost d = dfa@;
        let ghost g = d.class_sets();
        proof {
            dfa.lemma_wf();
            self.lemma_wf();
            lemma_bits_from(self@.alphabet.len(), 0);
        }
        let n: u128 = dfa.number_of_states();
        let mut old_id: u128 = 0;
        while old_id < n
            invariant
                old_id <= n,
                n == d.states,
                d == dfa@,
                g == d.class_sets(),
                dfa.wf(),
                d.wf(),
                d.closed(),
                indistin@ == g,
                maps_to_class(d, config),
                self.wf(),
                self@.alphabet == d.alphabet,
                self@.alphabet.len() <= self@.stride(),
                self@.states == d.class_count(),
                self@.start == old(self)@.start,
                self@.accept == old(self)@.accept,
                self@.blank_from(crate::quotient::singles_below(g, old_id as int) as int),
                self@.ins_right_upto(crate::quotient::singles_below(g, old_id as int) as int),
                self@.padding_clear(),
                crate::quotient::single_rows_right(d, self@, old_id as int),
            decreases n - old_id,
        {
            let ghost before = self@;
            if indistin.contains_at(old_id).is_none() {
                proof {
                    d.lemma_class_id_range(old_id);
                    assert(config.id_map@.contains_key(old_id));
                }
                let from: u128 = *config.id_map.get(&old_id).unwrap();
                let targets: Vec<u128> = DenseDFA::mapped_row(dfa, config, old_id);
                self.fill_row(from, &targets);
                proof {
                    let now = self@;
                    assert forall|x: u128, k: int|
                        x < old_id + 1 && group_index(g, x) >= g.len() && 0 <= k
                            < d.alphabet.len() implies #[trigger] now.at(
                        crate::quotient::singles_below(g, x as int) as int,
                        k,
                    ) == d.class_id(d.at(x as int, k)) by {
                        let row = crate::quotient::singles_below(g, x as int) as int;
                        if x < old_id {
                            crate::quotient::lemma_singles_monotone(g, x as int, old_id as int);
                            assert(before.at(row, k) == d.class_id(d.at(x as int, k)));
                            assert(now.at(row, k) == before.at(row, k));
                        } else {
                            assert(now.at(from as int, k) == targets@[k]);
                        }
                    }
                }
            } else {
                proof {
                    assert forall|x: u128, k: int|
                        x < old_id + 1 && group_index(g, x) >= g.len() && 0 <= k
                            < d.alphabet.len() implies #[trigger] self@.at(
                        crate::quotient::singles_below(g, x as int) as int,
                        k,
                    ) == d.class_id(d.at(x as int, k)) by {
                        assert(x < old_id);
                    }
                }
            }
            old_id += 1;
        }
    }

    /// Fills the rows of the classes of two states or more, each from the
    /// moves of one of its states.
    fn fill_group_rows(
        &mut self,
        dfa: &DenseDFA,
        indistin: &crate::minimize::IndistinGroups,
        config: &DfaConfig,
    )
        requires
            old(self).wf(),
            dfa.wf(),
            dfa@.closed(),
            indistin@ == dfa@.class_sets(),
            maps_to_class(dfa@, config),
            old(self)@.alphabet == dfa@.alphabet,
            old(self)@.states == dfa@.class_count(),
            old(self)@.blank_from(
                crate::quotient::singles_below(dfa@.class_sets(), dfa@.states as int) as int,
            ),
            old(self)@.ins_right_upto(
                crate::quotient::singles_below(dfa@.class_sets(), dfa@.states as int) as int,
            ),
            old(self)@.padding_clear(),
            crate::quotient::single_rows_right(dfa@, old(self)@, dfa@.states as int),
        ensures
            final(self).wf(),
            final(self)@.alphabet == old(self)@.alphabet,
            final(self)@.states == old(self)@.states,
            final(self)@.start == old(self)@.start,
            final(self)@.accept == old(self)@.accept,
            final(self)@.ins_right_upto(final(self)@.states as int),
            final(self)@.padding_clear(),
            crate::quotient::single_rows_right(dfa@, final(self)@, dfa@.states as int),
            crate::quotient::group_rows_right(dfa@, final(self)@, dfa@.classes().len() as int),
    {
        let ghost d = dfa@;
        let ghost g = d.class_sets();
        let ghost singles = crate::quotient::singles_below(g, d.states as int) as int;
        proof {
            dfa.lemma_wf();
            self.lemma_wf();
            lemma_bits_from(self@.alphabet.len(), 0);
            d.lemma_class_count();
        }
        let groups: &Vec<HashSet<u128>> = indistin.iter();
        let ghost lists = d.classes();
        let mut j: usize = 0;
        while j < groups.len()
            invariant
                j <= groups.len(),
                groups@.len() == g.len(),
                forall|i: int| 0 <= i < groups@.len() ==> (#[trigger] groups@[i])@ == g[i],
                d == dfa@,
                g == d.class_sets(),
                lists == d.classes(),
                singles == crate::quotient::singles_below(g, d.states as int),
                dfa.wf(),
                d.wf(),
                d.closed(),
                maps_to_class(d, config),
                self.wf(),
                self@.alphabet == d.alphabet,
                self@.alphabet.len() <= self@.stride(),
                self@.states == d.class_count(),
                self@.start == old(self)@.start,
                self@.accept == old(self)@.accept,
                self@.blank_from(singles + j),
                self@.ins_right_upto(singles + j),
                self@.padding_clear(),
                crate::quotient::single_rows_right(d, self@, d.states as int),
                crate::quotient::group_rows_right(d, self@, j as int),
            decreases groups.len() - j,
        {
            let ghost before = self@;
            let members: Vec<u128> = crate::dfa::members(&groups[j]);
            let ghost leader = lists[j as int][0];
            proof {
                let found = d.lemma_class_leader(d.states as int, j as int);
                d.lemma_class_of(found, found);
                assert(groups@[j as int]@ == g[j as int]);
                assert(lists[j as int][0] == found);
                d.lemma_leader_of(found);
                d.lemma_group_index_of(d.states as int, found);
                assert(d.class_id(found) == singles + j);
                assert(g[j as int].contains(found));
                assert(members@.to_set().contains(found));
                assert(members@.len() > 0);
                assert(members@.to_set().contains(members@[0]));
                assert(lists[j as int].contains(members@[0]));
                d.lemma_class_of(found, members@[0]);
                if members@[0] != found {
                    d.lemma_class_id_equivalent(found, members@[0]);
                }
                assert(config.id_map@.contains_key(members@[0]));
            }
            let old_id: u128 = members[0];
            let from: u128 = *config.id_map.get(&old_id).unwrap();
            let targets: Vec<u128> = DenseDFA::mapped_row(dfa, config, old_id);
            proof {
                assert forall|k: int| 0 <= k < targets@.len() implies targets@[k] == d.class_id(
                    d.at(leader as int, k),
                ) by {
                    assert(targets@[k] == d.class_id(d.at(old_id as int, k)));
                    assert(d.at(old_id as int, k) < d.states);
                    assert(d.at(leader as int, k) < d.states);
                    if old_id != leader {
                        d.lemma_equivalent_step(leader, old_id, k);
                        d.lemma_class_id_equivalent(d.at(leader as int, k), d.at(old_id as int, k));
                    }
                }
            }
            self.fill_row(from, &targets);
            proof {
                let now = self@;
                assert forall|x: u128, k: int|
                    x < d.states && group_index(g, x) >= g.len() && 0 <= k
                        < d.alphabet.len() implies #[trigger] now.at(
                    crate::quotient::singles_below(g, x as int) as int,
                    k,
                ) == d.class_id(d.at(x as int, k)) by {
                    let row = crate::quotient::singles_below(g, x as int) as int;
                    crate::quotient::lemma_singles_monotone(g, x as int, d.states as int);
                    assert(before.at(row, k) == d.class_id(d.at(x as int, k)));
                    assert(now.at(row, k) == before.at(row, k));
                }
                assert forall|i: int, k: int|
                    0 <= i < j + 1 && 0 <= k < d.alphabet.len() implies #[trigger] now.at(
                    singles + i,
                    k,
                ) == d.class_id(d.at(lists[i][0] as int, k)) by {
                    if i < j {
                        assert(before.at(singles + i, k) == d.class_id(
                            d.at(lists[i][0] as int, k),
                        ));
                        assert(now.at(singles + i, k) == before.at(singles + i, k));
                    } else {
                        assert(now.at(from as int, k) == targets@[k]);
                    }
                }
            }
            j += 1;
        }
    }

    /// The minimal automaton for this one: `None` if some word tells any two
    /// states apart, and else the quotient by the equivalence of the states
    /// (see [`crate::quotient::quotient_of`]).
    pub fn minimize(&self) -> (r: Option<DenseDFA>)
        requires
            self.wf(),
            self@.closed(),
        ensures
            match r {
                None => self@.minimal(),
                Some(m) => !self@.minimal() && m.wf() && crate::quotient::quotient_of(self@, m@),
            },
    {
        let ghost d = self@;
        proof {
            crate::traits::lemma_dense_tabulates(self);
        }
        let indistin_groups = crate::minimize::compute_indistin_state_groups(self);
        proof {
            self.lemma_wf();
            d.lemma_minimal_iff();
        }
        if indistin_groups.num_of_groups() == 0 {
            return None;
        }
        let config: DfaConfig = DfaConfig::new_for_minimize(self, &indistin_groups);
        proof {
            lemma_accept_classes(d, &config);
            let start = d.start->Some_0;
            assert(config.id_map@.contains_key(start));
            assert(config.id_map@[start] == d.class_id(start));
        }
        let mut minimized_dfa: DenseDFA = DenseDFA::init_with_config(&config);
        minimized_dfa.fill_single_rows(self, &indistin_groups, &config);
        minimized_dfa.fill_group_rows(self, &indistin_groups, &config);
        proof {
            minimized_dfa.lemma_wf();
            let m = minimized_dfa@;
            assert forall|x: u128, k: int|
                x < d.states && 0 <= k < d.alphabet.len() implies #[trigger] m.at(d.class_id(x), k)
                == d.class_id(d.at(x as int, k)) by {
                crate::quotient::lemma_quotient_cells(d, m, x, k);
            }
        }
        Some(minimized_dfa)
    }
}

} // verus!
