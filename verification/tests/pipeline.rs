use regular_language::ast::Ast;
use regular_language::builder::{BuildError, Builder};
use regular_language::dense::DenseDFA;
use regular_language::dfa::{DeltaError, DfaError, DFA01};
use regular_language::nfa::{State, NFA};
use regular_language::{get_ans, re_to_dfa, PipelineError};

fn literal(text: &str) -> Ast {
    Ast::Literal(text.as_bytes().to_vec())
}

fn star(sub: Ast) -> Ast {
    Ast::Repetition(Box::new(sub))
}

fn zeros_then_one() -> Ast {
    Ast::Concat(vec![star(literal("0")), literal("1")])
}

fn ends_in_one() -> Ast {
    Ast::Concat(vec![
        star(Ast::Capture(Box::new(Ast::Class(vec![(b'0', b'1')])))),
        literal("1"),
    ])
}

fn plain_for(ast: &Ast) -> NFA {
    let nfa = Builder::new().build_nfa_from_re(ast).unwrap();
    assert!(nfa.is_well_formed());
    Builder::new().build_non_epsilon_nfa(&nfa).unwrap()
}

fn dense_for(ast: &Ast) -> DenseDFA {
    let plain = plain_for(ast);
    assert!(plain.is_ready_for_subsets());
    let sparse = DFA01::build_dfa_from_nfa(&plain).unwrap();
    DenseDFA::build_from_sparse01_dfa(&sparse)
}

fn accepts(dfa: &DenseDFA, word: &str) -> bool {
    let mut state = dfa.start_state();
    for symbol in word.bytes() {
        state = dfa.delta(state, symbol).unwrap();
    }
    dfa.accept_states().contains(&state)
}

fn nfa_accepts(nfa: &NFA, word: &str) -> bool {
    let mut current = vec![nfa.start_state.unwrap()];
    for symbol in word.bytes() {
        let mut next = Vec::new();
        for state in &current {
            if let State::NonEpsilon(moves) = &nfa.get_states_iter()[*state as usize] {
                for (input, to) in moves.iter() {
                    if *input == symbol && !next.contains(to) {
                        next.push(*to);
                    }
                }
            }
        }
        current = next;
    }
    current.contains(&nfa.accept_states[0])
}

fn binary_words(max_len: usize) -> Vec<String> {
    let mut words = vec![String::new()];
    let mut start = 0;
    for _ in 0..max_len {
        let end = words.len();
        for i in start..end {
            for symbol in ["0", "1"] {
                let longer = format!("{}{}", words[i], symbol);
                words.push(longer);
            }
        }
        start = end;
    }
    words
}

#[test]
fn literal_builds_a_chain() {
    let nfa = Builder::new().build_nfa_from_re(&literal("01")).unwrap();
    assert_eq!(nfa.get_states_iter().len(), 5);
    assert_eq!(nfa.start_state, Some(1));
    assert_eq!(nfa.accept_states, vec![0]);
    assert_eq!(
        nfa.to_dot(),
        "digraph {\nrankdir=LR;\nnode [shape = doublecircle];\n0;\nnode [shape = circle];\n\
         1 -> 3 [label=\"\u{3b5}\"];\n2 -> 0 [label=\"\u{3b5}\"];\n3 -> 4 [label=\"0\"];\n\
         4 -> 2 [label=\"1\"];\n}"
    );
}

#[test]
fn lookaround_is_refused() {
    let ast = Ast::Concat(vec![literal("0"), Ast::Look]);
    assert!(matches!(
        Builder::new().build_nfa_from_re(&ast),
        Err(BuildError::UnsupportedConstruct)
    ));
    assert_eq!(re_to_dfa(&ast).err(), Some(PipelineError::Build(BuildError::UnsupportedConstruct)));
}

#[test]
fn a_visit_without_a_hole_is_a_malformed_tree() {
    let mut builder = Builder::new();
    assert_eq!(builder.visit_pre(&Ast::Empty), Err(BuildError::MalformedTree));
}

#[test]
fn single_zero_has_an_alphabet_of_one_symbol() {
    assert_eq!(
        re_to_dfa(&literal("0")).err(),
        Some(PipelineError::Dfa(DfaError::UnsupportedAlphabet))
    );
}

#[test]
fn single_zero_with_both_symbols_known_has_two_states_besides_the_trap() {
    let mut nfa = NFA::init_empty();
    let accept = nfa.add_final_state();
    let start = nfa.add_non_epsilon_state();
    let aside = nfa.add_non_epsilon_state();
    nfa.add_transition(start, b'0', accept);
    nfa.add_transition(aside, b'1', accept);
    nfa.set_start_state(start);
    nfa.set_accept_state(accept);
    let sparse = DFA01::build_dfa_from_nfa(&nfa).unwrap();
    let dense = DenseDFA::build_from_sparse01_dfa(&sparse);
    assert!(dense.minimize().is_none());
    assert_eq!(dense.number_of_states(), 3);
    assert!(accepts(&dense, "0"));
    for word in ["", "1", "00", "01", "10"] {
        assert!(!accepts(&dense, word), "{}", word);
    }
}

#[test]
fn empty_expression_has_no_alphabet() {
    assert_eq!(
        re_to_dfa(&Ast::Empty).err(),
        Some(PipelineError::Dfa(DfaError::UnsupportedAlphabet))
    );
}

#[test]
fn accepting_start_state_without_moves_leads_to_the_trap_only() {
    let mut nfa = NFA::init_empty();
    let start = nfa.add_final_state();
    let aside = nfa.add_non_epsilon_state();
    nfa.add_transition(aside, b'0', start);
    nfa.add_transition(aside, b'1', start);
    nfa.set_start_state(start);
    nfa.set_accept_state(start);
    let sparse = DFA01::build_dfa_from_nfa(&nfa).unwrap();
    let dense = DenseDFA::build_from_sparse01_dfa(&sparse);
    let minimal = match dense.minimize() {
        Some(minimal) => minimal,
        None => dense,
    };
    let start_state = minimal.start_state();
    assert!(minimal.accept_states().contains(&start_state));
    assert_eq!(minimal.delta(start_state, b'0'), Ok(0));
    assert_eq!(minimal.delta(start_state, b'1'), Ok(0));
    assert!(accepts(&minimal, ""));
    assert!(!accepts(&minimal, "0"));
}

#[test]
fn zeros_then_one_has_two_states_besides_the_trap() {
    let minimal = re_to_dfa(&zeros_then_one()).unwrap();
    assert_eq!(minimal.number_of_states(), 3);
    for word in ["1", "01", "001", "0000001"] {
        assert!(accepts(&minimal, word), "{}", word);
    }
    for word in ["", "0", "10", "11", "010", "0011", "00"] {
        assert!(!accepts(&minimal, word), "{}", word);
    }
}

#[test]
fn words_that_end_in_one_have_two_states() {
    let dense = dense_for(&ends_in_one());
    let minimal = dense.minimize().expect("two states behave alike");
    assert_eq!(minimal.number_of_states(), 2);
    for word in ["1", "01", "11", "0101", "111"] {
        assert!(accepts(&minimal, word), "{}", word);
    }
    for word in ["", "0", "10", "0110"] {
        assert!(!accepts(&minimal, word), "{}", word);
    }
}

#[test]
fn minimal_automaton_accepts_what_the_plain_automaton_accepts() {
    for ast in [zeros_then_one(), ends_in_one()] {
        let plain = plain_for(&ast);
        let dense = dense_for(&ast);
        let minimal = re_to_dfa(&ast).unwrap();
        for word in binary_words(6) {
            let expected = nfa_accepts(&plain, &word);
            assert_eq!(accepts(&dense, &word), expected, "{}", word);
            assert_eq!(accepts(&minimal, &word), expected, "{}", word);
        }
    }
}

#[test]
fn second_minimisation_finds_nothing() {
    for ast in [zeros_then_one(), ends_in_one()] {
        let dense = dense_for(&ast);
        if let Some(minimal) = dense.minimize() {
            assert!(minimal.minimize().is_none());
        }
        assert!(re_to_dfa(&ast).unwrap().minimize().is_none());
    }
}

#[test]
fn no_stage_adds_states() {
    for ast in [zeros_then_one(), ends_in_one()] {
        let plain = plain_for(&ast);
        let sparse = DFA01::build_dfa_from_nfa(&plain).unwrap();
        let dense = DenseDFA::build_from_sparse01_dfa(&sparse);
        let minimal = re_to_dfa(&ast).unwrap();
        assert_eq!(dense.number_of_states(), sparse.number_of_states());
        assert!(minimal.number_of_states() <= dense.number_of_states());
    }
}

#[test]
fn alphabet_other_than_zero_and_one_is_refused() {
    let ast = Ast::Concat(vec![literal("a"), literal("b")]);
    let plain = plain_for(&ast);
    assert!(matches!(DFA01::build_dfa_from_nfa(&plain), Err(DfaError::UnsupportedAlphabet)));
    assert!(matches!(DFA01::try_build_dfa_from_nfa(&plain), Err(DfaError::UnsupportedAlphabet)));
}

#[test]
fn more_than_128_states_are_refused() {
    let mut nfa = NFA::init_empty();
    for _ in 0..129 {
        nfa.add_non_epsilon_state();
    }
    nfa.add_transition(0, b'0', 1);
    nfa.add_transition(0, b'1', 2);
    nfa.set_start_state(0);
    nfa.set_accept_state(1);
    assert!(matches!(DFA01::build_dfa_from_nfa(&nfa), Err(DfaError::TooManyStates)));
    assert!(matches!(DFA01::try_build_dfa_from_nfa(&nfa), Err(DfaError::TooManyStates)));
}

#[test]
fn automaton_without_start_state_is_malformed() {
    let mut nfa = NFA::init_empty();
    let state = nfa.add_non_epsilon_state();
    nfa.add_transition(state, b'0', state);
    nfa.add_transition(state, b'1', state);
    nfa.set_accept_state(state);
    assert!(matches!(DFA01::try_build_dfa_from_nfa(&nfa), Err(DfaError::MalformedAutomaton)));
}

#[test]
fn lookups_fail_on_what_the_automaton_lacks() {
    let minimal = re_to_dfa(&zeros_then_one()).unwrap();
    assert_eq!(minimal.delta(3, b'0'), Err(DeltaError::UnknownState));
    assert_eq!(minimal.delta(1, b'a'), Err(DeltaError::UnknownSymbol));
    assert_eq!(minimal.delta(9, b'a'), Err(DeltaError::UnknownState));
}

#[test]
fn answer_joins_the_three_texts() {
    let answer = get_ans(&zeros_then_one()).unwrap();
    let parts: Vec<&str> = answer.split('@').collect();
    assert_eq!(parts.len(), 3);
    assert!(parts[0].starts_with("\t0\t1\n"));
    assert!(parts[1].starts_with("S -> q"));
    assert!(parts[2].starts_with("digraph DFA {\n"));
}

#[test]
fn empty_word_is_lost_where_the_start_state_has_moves() {
    let any = star(Ast::Class(vec![(b'0', b'1')]));
    let minimal = re_to_dfa(&any).unwrap();
    for word in ["0", "1", "01", "1100"] {
        assert!(accepts(&minimal, word), "{}", word);
    }
    assert!(!accepts(&minimal, ""));
}

#[test]
fn alternation_shares_entry_and_exit() {
    let ast = Ast::Alternation(vec![literal("00"), literal("1"), literal("010")]);
    let minimal = re_to_dfa(&ast).unwrap();
    for word in ["00", "1", "010"] {
        assert!(accepts(&minimal, word), "{}", word);
    }
    for word in ["", "0", "01", "11", "0100", "000"] {
        assert!(!accepts(&minimal, word), "{}", word);
    }
    assert!(minimal.minimize().is_none());
}

#[test]
fn nested_concatenations_chain_in_order() {
    let ast = Ast::Concat(vec![
        literal("1"),
        Ast::Concat(vec![star(literal("01")), Ast::Capture(Box::new(literal("0")))]),
        Ast::Alternation(vec![Ast::Empty, literal("11")]),
    ]);
    let plain = plain_for(&ast);
    let minimal = re_to_dfa(&ast).unwrap();
    for word in ["10", "1010", "1011", "101011", "1010100"] {
        assert_eq!(accepts(&minimal, word), nfa_accepts(&plain, word), "{}", word);
    }
    assert!(accepts(&minimal, "10"));
    assert!(accepts(&minimal, "1011"));
    assert!(accepts(&minimal, "101010"));
    assert!(!accepts(&minimal, "1"));
    assert!(!accepts(&minimal, "101"));
}

#[test]
fn builder_steps_splice_one_node() {
    let mut builder = Builder::new();
    assert_eq!(builder.visit_post(&Ast::Concat(Vec::new())), Ok(()));
    let nfa = builder.finish().unwrap();
    assert_eq!(nfa.get_states_iter().len(), 0);
    let nfa = Builder::new().build_nfa_from_re(&Ast::Empty).unwrap();
    assert_eq!(
        nfa.to_dot(),
        "digraph {\nrankdir=LR;\nnode [shape = doublecircle];\n0;\nnode [shape = circle];\n\
         1 -> 3 [label=\"\u{3b5}\"];\n2 -> 0 [label=\"\u{3b5}\"];\n3 -> 2 [label=\"\u{3b5}\"];\n}"
    );
}

#[test]
fn class_gives_one_move_for_each_byte() {
    let nfa = Builder::new()
        .build_nfa_from_re(&Ast::Class(vec![(b'a', b'c'), (b'x', b'x')]))
        .unwrap();
    assert_eq!(nfa.deltas(3), vec![
        (b'a', vec![2]),
        (b'b', vec![2]),
        (b'c', vec![2]),
        (b'x', vec![2])
    ]);
    assert_eq!(nfa.alphabet().len(), 4);
}

#[test]
fn repetition_loops_back_to_its_entry() {
    let nfa = Builder::new().build_nfa_from_re(&star(literal("0"))).unwrap();
    assert_eq!(nfa.get_states_iter().len(), 6);
    let (mut closure, moves) = nfa.epsilon_closure_and_dalta(1);
    closure.sort();
    assert_eq!(closure, vec![0, 1, 2, 3, 5]);
    assert_eq!(moves, vec![(b'0', 4)]);
}

fn with_epsilon_accepts(nfa: &NFA, word: &str) -> bool {
    let mut current = vec![nfa.start_state.unwrap()];
    for symbol in word.bytes() {
        let mut next = Vec::new();
        for state in &current {
            let (_, moves) = nfa.epsilon_closure_and_dalta(*state);
            for (input, to) in moves {
                if input == symbol && !next.contains(&to) {
                    next.push(to);
                }
            }
        }
        current = next;
    }
    current
        .iter()
        .any(|state| nfa.epsilon_closure_and_dalta(*state).0.contains(&nfa.accept_states[0]))
}

fn samples() -> Vec<Ast> {
    vec![
        zeros_then_one(),
        ends_in_one(),
        Ast::Alternation(vec![literal("00"), literal("1"), literal("010")]),
        Ast::Concat(vec![
            star(Ast::Alternation(vec![literal("01"), literal("1")])),
            Ast::Capture(Box::new(literal("0"))),
        ]),
        Ast::Concat(vec![
            literal("1"),
            star(star(literal("0"))),
            Ast::Alternation(vec![Ast::Empty, literal("11")]),
        ]),
        star(Ast::Concat(vec![literal("0"), star(literal("1")), literal("0")])),
    ]
}

#[test]
fn words_of_one_symbol_or_more_survive_every_stage() {
    for ast in samples() {
        let nfa = Builder::new().build_nfa_from_re(&ast).unwrap();
        let plain = plain_for(&ast);
        let dense = dense_for(&ast);
        let minimal = re_to_dfa(&ast).unwrap();
        assert!(minimal.minimize().is_none());
        assert!(minimal.number_of_states() <= dense.number_of_states());
        for word in binary_words(7) {
            if word.is_empty() {
                continue;
            }
            let expected = with_epsilon_accepts(&nfa, &word);
            assert_eq!(nfa_accepts(&plain, &word), expected, "{}", word);
            assert_eq!(accepts(&dense, &word), expected, "{}", word);
            assert_eq!(accepts(&minimal, &word), expected, "{}", word);
        }
    }
}

#[test]
fn more_than_128_states_are_refused_whatever_the_accept_state() {
    let mut nfa = NFA::init_empty();
    for _ in 0..128 {
        nfa.add_non_epsilon_state();
    }
    let accept = nfa.add_final_state();
    nfa.add_transition(0, b'0', accept);
    nfa.add_transition(0, b'1', accept);
    nfa.set_start_state(0);
    nfa.set_accept_state(accept);
    assert_eq!(accept, 128);
    assert!(matches!(DFA01::build_dfa_from_nfa(&nfa), Err(DfaError::TooManyStates)));
}

#[test]
fn start_and_accept_states_are_renumbered_with_the_states() {
    let mut old = NFA::init_empty();
    old.add_fail_state();
    let start = old.add_non_epsilon_state();
    let accept = old.add_final_state();
    old.add_transition(start, b'0', accept);
    old.set_start_state(start);
    old.set_accept_state(accept);
    let plain = Builder::new().build_non_epsilon_nfa(&old).unwrap();
    assert_eq!(plain.get_states_iter().len(), 2);
    assert_eq!(plain.start_state, Some(0));
    assert_eq!(plain.accept_states, vec![1]);
    assert_eq!(plain.deltas(0), vec![(b'0', vec![1])]);
    assert!(nfa_accepts(&plain, "0"));
    assert!(!nfa_accepts(&plain, ""));
    assert!(!nfa_accepts(&plain, "00"));
}

#[test]
fn empty_expression_leaves_its_start_state_alone() {
    let nfa = Builder::new().build_nfa_from_re(&Ast::Empty).unwrap();
    let plain = Builder::new().build_non_epsilon_nfa(&nfa).unwrap();
    assert_eq!(plain.get_states_iter().len(), 1);
    assert_eq!(plain.start_state, Some(0));
    assert_eq!(plain.accept_states, Vec::<u32>::new());
    assert!(matches!(plain.get_states_iter()[0], State::Final));
}

#[test]
fn every_state_of_the_plain_automaton_is_reached() {
    for ast in samples() {
        let plain = plain_for(&ast);
        let count = plain.get_states_iter().len() as u32;
        assert!(plain.start_state.unwrap() < count);
        assert!(plain.accept_states.iter().all(|id| *id < count));
        assert!(plain.search_unreachable_states().is_empty());
        for state in plain.get_states_iter() {
            assert!(matches!(state, State::NonEpsilon(_) | State::Final));
        }
    }
}
