//! Conversions between representations of a regular language: a syntax tree is
//! turned into a nondeterministic automaton with epsilon moves, the epsilon
//! moves are eliminated, the result is determinised by the subset
//! construction, stored densely and minimised.
/// The syntax tree of a regular expression.
pub mod ast;
/// Thompson's construction and the elimination of epsilon moves.
pub mod builder;
/// The classes of equivalent states of a dense automaton.
pub mod classes;
/// Deterministic automata in one flat table.
pub mod dense;
/// The subset construction and the sparse deterministic automaton.
pub mod dfa;
/// What the elimination of epsilon moves keeps.
pub mod epsilon;
/// A dense automaton as a list of edges.
pub mod edge;
/// The automata as text.
pub mod format;
/// Reachability in directed graphs.
pub mod graph;
/// What holds of the stages together.
pub mod laws;
/// Table filling and the groups of equivalent states.
pub mod minimize;
/// The moves of one state by symbol.
pub mod moves;
/// Nondeterministic automata.
pub mod nfa;
/// The quotient of a dense automaton by the equivalence of its states.
pub mod quotient;
/// Pieces of text.
pub mod text;
/// What alphabets and finished automata offer.
pub mod traits;

use crate::ast::Ast;
use crate::builder::{BuildError, Builder, BuilderModel};
use crate::dense::{dense_of, DenseDFA, DenseModel};
use crate::dfa::{DfaError, DfaModel, DFA01};
use crate::nfa::{NfaModel, NFA};
use crate::quotient::quotient_of;
use crate::text::push_text;
use crate::traits::{table_text, to_fmt_output};
use vstd::prelude::*;

verus! {

/// Why no minimal automaton could be built.
#[derive(Debug, Clone, Copy, PartialEq, Eq, Structural)]
pub enum PipelineError {
    /// No automaton with epsilon moves could be built for the tree.
    Build(BuildError),
    /// The subset construction failed.
    Dfa(DfaError),
    /// The automaton of the subset construction has more than half as many
    /// states as the machine can count, so that the tables of the dense
    /// automaton would not fit it.
    TooLarge,
}

/// The automaton that a new builder builds for `re`.
pub open spec fn built(re: Ast) -> Result<NfaModel, BuildError> {
    (BuilderModel { nfa: NfaModel::empty(), stack: Seq::empty() }).build(re)
}

/// `plain` is `nfa` with its epsilon moves eliminated, the states that the
/// start state does not reach turned into rejecting states, and those
/// dropped.
pub open spec fn eliminated(nfa: NfaModel, plain: NfaModel) -> bool {
    exists|image: NfaModel| #[trigger]
        nfa.epsilon_free_image(image) && plain == image.pruned().compacted()
}

/// `dense` is what the stages before the minimisation make of `re`.
pub open spec fn dense_stage(re: Ast, plain: NfaModel, dense: DenseModel) -> bool {
    &&& built(re) is Ok
    &&& eliminated(built(re)->Ok_0, plain)
    &&& plain.ready_for_subsets()
    &&& plain.states.len() <= 128
    &&& plain.alphabet == set![crate::dfa::ZERO, crate::dfa::ONE]
    &&& plain.subset_dfa().states.dom().finite()
    &&& dense_of(plain.subset_dfa(), dense)
    &&& dense.closed()
}

/// The minimal automaton for `re`: the dense automaton of the stages before
/// the minimisation if that is minimal, and else its quotient.
pub fn re_to_dfa(re: &Ast) -> (r: Result<DenseDFA, PipelineError>)
    ensures
        match r {
            Ok(dfa) => dfa.wf() && minimal_for(*re, dfa@),
            Err(e) => fails_with(*re, e),
        },
{
    let nfa: NFA = match Builder::new().build_nfa_from_re(re) {
        Ok(nfa) => nfa,
        Err(e) => {
            return Err(PipelineError::Build(e));
        },
    };
    proof {
        assert(built(*re) == Ok::<NfaModel, BuildError>(nfa@));
        crate::builder::lemma_built_sound(*re);
    }
    let plain: NFA = match Builder::new().build_non_epsilon_nfa(&nfa) {
        Ok(plain) => plain,
        Err(e) => {
            return Err(PipelineError::Build(e));
        },
    };
    assert(eliminated(nfa@, plain@));
    let sparse: DFA01 = match DFA01::try_build_dfa_from_nfa(&plain) {
        Ok(sparse) => sparse,
        Err(e) => {
            return Err(PipelineError::Dfa(e));
        },
    };
    if sparse.number_of_states() > (usize::MAX / 2) as u128 {
        return Err(PipelineError::TooLarge);
    }
    let dense: DenseDFA = DenseDFA::build_from_sparse01_dfa(&sparse);
    let _ = sparse.number_of_states();
    proof {
        assert(dense_stage(*re, plain@, dense@));
    }
    match dense.minimize() {
        Some(minimal) => {
            proof {
                dense.lemma_wf();
                crate::quotient::lemma_quotient_closed(dense@, minimal@);
                crate::quotient::lemma_quotient_minimal(dense@, minimal@);
            }
            Ok(minimal)
        },
        None => Ok(dense),
    }
}

/// The three text forms of `dfa`, with an `@` between them: the transition
/// table, the right-linear grammar and the graph description.
pub fn answer_of(dfa: &DenseDFA) -> (r: String)
    requires
        dfa.wf(),
        dfa@.closed(),
        dfa@.alphabet.contains(crate::dfa::ZERO),
        dfa@.alphabet.contains(crate::dfa::ONE),
    ensures
        r@ == table_text(dfa) + "@"@ + dfa@.rg_text() + "@"@ + dfa@.dot_text(),
{
    assert(crate::traits::tabular(dfa));
    let mut ans: String = to_fmt_output(dfa);
    let rg: String = dfa.to_rg();
    let dot: String = dfa.call_to_dot();
    push_text(&mut ans, "@");
    push_text(&mut ans, rg.as_str());
    push_text(&mut ans, "@");
    push_text(&mut ans, dot.as_str());
    ans
}

/// `dfa` is a minimal automaton for `re`: what [`re_to_dfa`] gives.
pub open spec fn minimal_for(re: Ast, dfa: DenseModel) -> bool {
    dfa.closed() && dfa.minimal() && exists|plain: NfaModel, dense: DenseModel| #[trigger]
        dense_stage(re, plain, dense) && (if dense.minimal() {
            dfa == dense
        } else {
            quotient_of(dense, dfa)
        })
}

/// Why [`re_to_dfa`] fails with `error` on `re`.
pub open spec fn fails_with(re: Ast, error: PipelineError) -> bool {
    match error {
        PipelineError::Build(e) => built(re) == Err::<NfaModel, BuildError>(e),
        PipelineError::Dfa(e) => built(re) is Ok && exists|plain: NfaModel| #[trigger]
            eliminated(built(re)->Ok_0, plain) && match e {
                DfaError::TooManyStates => plain.states.len() > 128,
                DfaError::UnsupportedAlphabet => plain.states.len() <= 128 && plain.alphabet
                    != set![crate::dfa::ZERO, crate::dfa::ONE],
                DfaError::MalformedAutomaton => plain.states.len() <= 128 && plain.alphabet
                    == set![crate::dfa::ZERO, crate::dfa::ONE] && !plain.ready_for_subsets(),
            },
        PipelineError::TooLarge => built(re) is Ok && exists|plain: NfaModel| #[trigger]
            eliminated(built(re)->Ok_0, plain) && plain.ready_for_subsets() && plain.states.len()
                <= 128 && plain.alphabet == set![crate::dfa::ZERO, crate::dfa::ONE]
                && plain.subset_dfa().states.len() > usize::MAX / 2,
    }
}

/// The text forms of the minimal automaton for `re`: see [`re_to_dfa`] and
/// [`answer_of`].
pub fn get_ans(re: &Ast) -> (r: Result<String, PipelineError>)
    ensures
        match r {
            Ok(text) => exists|dfa: DenseDFA|
                dfa.wf() && #[trigger] minimal_for(*re, dfa@) && text@ == table_text(&dfa)
                    + "@"@ + dfa@.rg_text() + "@"@ + dfa@.dot_text(),
            Err(e) => fails_with(*re, e),
        },
{
    match re_to_dfa(re) {
        Ok(dfa) => {
            proof {
                let (plain, dense) = choose|plain: NfaModel, dense: DenseModel| #[trigger]
                    dense_stage(*re, plain, dense) && (if dense.minimal() {
                        dfa@ == dense
                    } else {
                        quotient_of(dense, dfa@)
                    });
                assert(dense.alphabet[0] == crate::dfa::ZERO && dense.alphabet[1]
                    == crate::dfa::ONE);
                assert(dfa@.alphabet == dense.alphabet);
            }
            let text: String = answer_of(&dfa);
            Ok(text)
        },
        Err(e) => Err(e),
    }
}

} // verus!
