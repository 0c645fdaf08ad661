use regular_language::dense::{has_duplicates, DenseDFA, Transisions};
use regular_language::dfa::{encode_subset, DeltaError, State01, DFA01};
use regular_language::edge::DfaAsEdges;
use regular_language::graph::{members_of, set_of};
use regular_language::minimize::{compute_indistin_state_groups, order_pair, IndistinGroups};
use regular_language::nfa::NFA;
use regular_language::traits::{to_fmt_output, Alphabet, CompletedDfa};
use std::collections::HashSet;

/// The trap 0, the start state 2 that loops on `0` and leads to 4 on `1`, and
/// the accept state 4 without moves.
fn sparse_sample() -> DFA01 {
    let mut dfa = DFA01::init_empty();
    dfa.add_empty_state(4);
    dfa.add_empty_state(0);
    dfa.add_empty_state(2);
    dfa.add_transition(2, b'0', 2);
    dfa.add_transition(2, b'1', 4);
    dfa.set_start_state(2);
    dfa.set_accept_state(4);
    dfa
}

/// Five states: the trap 0, the start state 1, the states 2 and 3 that behave
/// alike, and the accept state 4.
fn sparse_with_twins() -> DFA01 {
    let mut dfa = DFA01::init_empty();
    for id in [0, 10, 20, 30, 40] {
        dfa.add_empty_state(id);
    }
    dfa.add_transition(10, b'0', 20);
    dfa.add_transition(10, b'1', 30);
    dfa.add_transition(20, b'0', 40);
    dfa.add_transition(30, b'0', 40);
    dfa.set_start_state(10);
    dfa.set_accept_state(40);
    dfa
}

#[test]
fn ordered_pair_puts_the_smaller_state_first() {
    assert_eq!(order_pair(3, 1), (1, 3));
    assert_eq!(order_pair(1, 3), (1, 3));
    assert_eq!(order_pair(2, 2), (2, 2));
}

#[test]
fn moves_are_grouped_by_symbol_in_ascending_order() {
    let mut nfa = NFA::init_empty();
    let state = nfa.add_non_epsilon_state();
    for _ in 0..3 {
        nfa.add_final_state();
    }
    nfa.add_transition(state, b'1', 3);
    nfa.add_transition(state, b'0', 2);
    nfa.add_transition(state, b'1', 1);
    nfa.add_transition(state, b'0', 1);
    assert_eq!(nfa.deltas(state), vec![(b'0', vec![2, 1]), (b'1', vec![3, 1])]);
    assert_eq!(nfa.deltas(1), Vec::new());
}

#[test]
fn states_come_in_the_ascending_order_of_their_ids() {
    let dfa = sparse_sample();
    let ids: Vec<u128> = dfa.states_with_id_iter().iter().map(|entry| entry.0).collect();
    assert_eq!(ids, vec![0, 2, 4]);
    let moves: Vec<(u128, u128)> =
        dfa.states_iter().iter().map(|state| state.transitions()).collect();
    assert_eq!(moves, vec![(0, 0), (2, 4), (0, 0)]);
}

#[test]
fn sparse_lookups() {
    let dfa = sparse_sample();
    assert_eq!(dfa.delta(2, b'1'), Ok(4));
    assert_eq!(dfa.delta(2, b'0'), Ok(2));
    assert_eq!(dfa.delta(3, b'0'), Err(DeltaError::UnknownState));
    assert_eq!(dfa.delta(2, b'2'), Err(DeltaError::UnknownSymbol));
    assert_eq!(dfa.number_of_states(), 3);
    assert_eq!(*dfa.alphabet(), (b'0', b'1'));
}

#[test]
fn missing_state_is_put_in_when_asked_for() {
    let mut dfa = sparse_sample();
    let state: State01 = dfa.get_state_by_id(7);
    assert_eq!(state.transitions(), (0, 0));
    assert_eq!(dfa.number_of_states(), 4);
    assert_eq!(dfa.get_state_by_id(2).transitions(), (2, 4));
    assert_eq!(dfa.number_of_states(), 4);
}

#[test]
fn sparse_graph_description() {
    assert_eq!(
        sparse_sample().to_dot(),
        "digraph DFA {\nrankdir=LR;\nnode [shape = doublecircle];\n4;\nnode [shape = circle];\n\
         2 -> 2 [label = \"0\"];\n2 -> 4 [label = \"1\"];\n}\n"
    );
}

#[test]
fn dense_numbers_follow_the_ascending_ids() {
    let dense = DenseDFA::build_from_sparse01_dfa(&sparse_sample());
    assert_eq!(dense.number_of_states(), 3);
    assert_eq!(dense.start_state(), 1);
    assert!(dense.accept_states().contains(&2));
    assert_eq!(dense.accept_states().len(), 1);
    assert_eq!(dense.delta(1, b'0'), Ok(1));
    assert_eq!(dense.delta(1, b'1'), Ok(2));
    assert_eq!(dense.delta(2, b'0'), Ok(0));
    assert_eq!(dense.alphabet_index_of(b'1'), 1);
    assert!(dense.is_no_way_out(2));
    assert!(!dense.is_no_way_out(1));
    assert_eq!(dense.stride(), 2);
    assert_eq!(dense.table_len(), 6);
    assert_eq!(dense.delta_by_tran_index(3), 2);
    assert_eq!(*dense.in_transitions_at(0), vec![0, 2]);
    assert_eq!(*dense.in_transitions_at(2), vec![1]);
    assert_eq!(*dense.in_transitions_at(4), Vec::<u128>::new());
    assert_eq!(*dense.in_transitions_at(5), vec![1]);
}

#[test]
fn dense_texts() {
    let dense = DenseDFA::build_from_sparse01_dfa(&sparse_sample());
    assert_eq!(to_fmt_output(&dense), "\t0\t1\n#q1\tq1\tq2\t\n*q2\tN\tN\t\n");
    assert_eq!(dense.to_rg(), "S -> q1\nq1 -> 0q1 | 1 \n");
    assert_eq!(
        dense.call_to_dot(),
        "digraph DFA {\nrankdir=LR;\nnode [shape = doublecircle];\n2;\nnode [shape = circle];\n\
         1 -> 1 [label = \"0\"];\n1 -> 2 [label = \"1\"];\n}\n"
    );
}

#[test]
fn states_that_behave_alike_form_a_group() {
    let dense = DenseDFA::build_from_sparse01_dfa(&sparse_with_twins());
    let groups = compute_indistin_state_groups(&dense);
    assert_eq!(groups.num_of_groups(), 1);
    assert_eq!(groups.num_of_indistin_states(), 2);
    assert_eq!(groups.iter()[0], HashSet::from([2, 3]));
    assert_eq!(groups.contains_at(3), Some(0));
    assert_eq!(groups.contains_at(1), None);
    let map = groups.remap(5);
    assert_eq!(map[&0], 0);
    assert_eq!(map[&1], 1);
    assert_eq!(map[&4], 2);
    assert_eq!(map[&2], 3);
    assert_eq!(map[&3], 3);
}

#[test]
fn quotient_puts_the_group_last() {
    let dense = DenseDFA::build_from_sparse01_dfa(&sparse_with_twins());
    let minimal = dense.minimize().unwrap();
    assert_eq!(minimal.number_of_states(), 4);
    assert_eq!(minimal.start_state(), 1);
    assert!(minimal.accept_states().contains(&2));
    assert_eq!(minimal.delta(1, b'0'), Ok(3));
    assert_eq!(minimal.delta(1, b'1'), Ok(3));
    assert_eq!(minimal.delta(3, b'0'), Ok(2));
    assert_eq!(minimal.delta(3, b'1'), Ok(0));
    assert!(minimal.minimize().is_none());
}

#[test]
fn pairs_join_and_merge_groups() {
    let mut groups = IndistinGroups::new();
    groups.insert_pair(5, 1);
    groups.insert_pair(7, 9);
    assert_eq!(groups.iter().clone(), vec![HashSet::from([1, 5]), HashSet::from([7, 9])]);
    groups.insert_pair(1, 3);
    groups.insert_pair(8, 9);
    assert_eq!(groups.iter().clone(), vec![HashSet::from([1, 3, 5]), HashSet::from([7, 8, 9])]);
    groups.insert_pair(3, 5);
    assert_eq!(groups.num_of_groups(), 2);
    groups.insert_pair(20, 21);
    groups.insert_pair(9, 5);
    assert_eq!(groups.iter().clone(), vec![
        HashSet::from([20, 21]),
        HashSet::from([1, 3, 5, 7, 8, 9])
    ]);
    assert_eq!(groups.num_of_indistin_states(), 8);
    assert_eq!(groups.contains_at(8), Some(1));
}

#[test]
fn stride_is_the_next_power_of_two() {
    let three = Transisions::<u128>::new_with_num_and_stride(5, 3);
    assert_eq!(three.stride(), 4);
    assert_eq!(three.number_of_states(), 5);
    let two = Transisions::<Vec<u128>>::new_with_num_and_stride(7, 2);
    assert_eq!(two.stride(), 2);
    assert_eq!(two.number_of_states(), 7);
    let one = Transisions::<u128>::new_with_num_and_stride(4, 1);
    assert_eq!(one.stride(), 1);
    let none = Transisions::<u128>::new_with_num_and_stride(4, 0);
    assert_eq!(none.stride(), 1);
    assert_eq!(none.number_of_states(), 4);
    let many = Transisions::<u128>::new_with_num_and_stride(1, 256);
    assert_eq!(many.stride(), 256);
}

#[test]
fn alphabets_hand_out_their_symbols() {
    let pair: (u8, u8) = (b'0', b'3');
    assert_eq!(Alphabet::len(&pair), 2);
    assert_eq!(pair.to_iter(), vec![b'0', b'1', b'2', b'3']);
    let list: Vec<u8> = vec![b'b', b'a'];
    assert_eq!(Alphabet::len(&list), 2);
    assert_eq!(list.to_iter(), vec![b'b', b'a']);
    let dense = DenseDFA::build_from_sparse01_dfa(&sparse_sample());
    assert_eq!(CompletedDfa::alphabet(&dense).to_iter(), vec![b'0', b'1']);
    assert_eq!(CompletedDfa::number_of_states(&sparse_sample()), 3);
}

#[test]
fn edges_leave_out_the_trap() {
    let dense = DenseDFA::build_from_sparse01_dfa(&sparse_sample());
    let edges = DfaAsEdges::new_from_dense(&dense);
    assert_eq!(edges.search_trans_by_from(1), vec![0, 1]);
    assert_eq!(edges.search_trans_by_to(2), vec![1]);
    assert_eq!(edges.search_trans_by_both(1, 1), vec![0]);
    assert_eq!(edges.search_trans_by_from(2), Vec::<usize>::new());
}

#[test]
fn inset_lists_the_states_that_lead_to_a_state() {
    let mut nfa = NFA::init_empty();
    let first = nfa.add_epsilon_state();
    let second = nfa.add_non_epsilon_state();
    let third = nfa.add_epsilon_state();
    nfa.add_epsilon_transition(first, third);
    nfa.add_epsilon_transition(first, second);
    nfa.add_transition(second, b'1', third);
    nfa.add_transition(second, b'0', third);
    nfa.add_epsilon_transition(third, third);
    let (by_epsilon, by_symbol) = nfa.search_inset_of_state(third);
    assert_eq!(by_epsilon, vec![0, 2]);
    assert_eq!(by_symbol, vec![(1, b'1'), (1, b'0')]);
}

#[test]
fn closures_follow_epsilon_moves_only() {
    let mut nfa = NFA::init_empty();
    let first = nfa.add_epsilon_state();
    let second = nfa.add_epsilon_state();
    let third = nfa.add_non_epsilon_state();
    let fourth = nfa.add_final_state();
    nfa.add_epsilon_transition(first, second);
    nfa.add_epsilon_transition(second, first);
    nfa.add_epsilon_transition(second, third);
    nfa.add_transition(third, b'0', fourth);
    nfa.add_transition(third, b'0', first);
    let (mut closure, moves) = nfa.epsilon_closure_and_dalta(first);
    closure.sort();
    assert_eq!(closure, vec![0, 1, 2]);
    assert_eq!(moves, vec![(b'0', 3), (b'0', 0)]);
    assert_eq!(nfa.epsilon_closure_to_non_epsilon(first), HashSet::from([2]));
    let mut hat = nfa.get_dalta_hat_transitions(first);
    hat.sort();
    assert_eq!(hat, vec![(b'0', 2), (b'0', 3)]);
    nfa.set_start_state(third);
    assert_eq!(nfa.search_unreachable_states(), HashSet::from([1]));
    nfa.set_start_state(fourth);
    assert_eq!(nfa.search_unreachable_states(), HashSet::from([0, 1, 2]));
}

#[test]
fn rejecting_states_are_dropped_and_the_others_renumbered() {
    let mut nfa = NFA::init_empty();
    nfa.add_fail_state();
    let second = nfa.add_non_epsilon_state();
    nfa.add_fail_state();
    let fourth = nfa.add_final_state();
    nfa.add_transition(second, b'1', fourth);
    nfa.add_transition(second, b'0', second);
    nfa.set_start_state(second);
    nfa.set_accept_state(2);
    nfa.set_accept_state(fourth);
    nfa.set_accept_state(9);
    nfa.set_accept_state(second);
    nfa.remap_states();
    assert_eq!(nfa.start_state, Some(0));
    assert_eq!(nfa.accept_states, vec![1, 0]);
    assert_eq!(nfa.get_states_iter().len(), 2);
    assert_eq!(nfa.deltas(0), vec![(b'0', vec![0]), (b'1', vec![1])]);
}

#[test]
fn subsets_are_named_by_their_bits() {
    assert_eq!(encode_subset(&vec![0, 1, 3, 5]), 0b101011);
    assert_eq!(encode_subset(&Vec::new()), 0);
    assert_eq!(encode_subset(&vec![127]), 1u128 << 127);
    let mut nfa = NFA::init_empty();
    let start = nfa.add_non_epsilon_state();
    let middle = nfa.add_non_epsilon_state();
    let accept = nfa.add_final_state();
    nfa.add_transition(start, b'0', start);
    nfa.add_transition(start, b'0', middle);
    nfa.add_transition(middle, b'1', accept);
    nfa.set_start_state(start);
    nfa.set_accept_state(accept);
    let dfa = DFA01::build_dfa_from_nfa(&nfa).unwrap();
    let ids: Vec<u128> = dfa.states_with_id_iter().iter().map(|entry| entry.0).collect();
    assert_eq!(ids, vec![0, 1, 3, 4]);
    assert_eq!(dfa.start_state(), 1);
    assert_eq!(dfa.delta(1, b'0'), Ok(3));
    assert_eq!(dfa.delta(3, b'0'), Ok(3));
    assert_eq!(dfa.delta(3, b'1'), Ok(4));
    assert_eq!(dfa.delta(1, b'1'), Ok(0));
    assert!(dfa.accept_states().contains(&4));
    assert_eq!(dfa.accept_states().len(), 1);
}

#[test]
fn exactly_128_states_are_accepted() {
    let mut nfa = NFA::init_empty();
    for _ in 0..128 {
        nfa.add_non_epsilon_state();
    }
    for state in 0..127u32 {
        nfa.add_transition(state, b'0', state + 1);
        nfa.add_transition(state, b'1', state + 1);
    }
    nfa.set_start_state(0);
    nfa.set_accept_state(127);
    let dfa = DFA01::build_dfa_from_nfa(&nfa).unwrap();
    assert_eq!(dfa.number_of_states(), 129);
    assert_eq!(dfa.delta(1u128 << 126, b'1'), Ok(1u128 << 127));
    assert!(dfa.accept_states().contains(&(1u128 << 127)));
    let dense = DenseDFA::build_from_sparse01_dfa(&dfa);
    assert_eq!(dense.number_of_states(), 129);
    assert!(dense.minimize().is_none());
}

#[test]
fn built_automata_are_well_formed() {
    let dense = DenseDFA::build_from_sparse01_dfa(&sparse_with_twins());
    assert!(dense.is_well_formed());
    assert!(dense.minimize().unwrap().is_well_formed());
    assert!(has_duplicates(&vec![b'0', b'1', b'0']));
    assert!(!has_duplicates(&vec![b'0', b'1']));
    assert!(!has_duplicates(&Vec::new()));
}

#[test]
fn groups_are_found_in_a_sparse_automaton_with_the_ids_in_a_row() {
    let mut dfa = DFA01::init_empty();
    for id in 0..5 {
        dfa.add_empty_state(id);
    }
    dfa.add_transition(1, b'0', 2);
    dfa.add_transition(1, b'1', 3);
    dfa.add_transition(2, b'0', 4);
    dfa.add_transition(3, b'0', 4);
    dfa.set_start_state(1);
    dfa.set_accept_state(4);
    let groups = compute_indistin_state_groups(&dfa);
    assert_eq!(groups.num_of_groups(), 1);
    assert_eq!(groups.iter()[0], HashSet::from([2, 3]));
    assert_eq!(groups.contains_at(2), Some(0));
    assert_eq!(groups.contains_at(1), None);
}

#[test]
fn a_set_and_its_list_hold_the_same_ids() {
    let set = set_of(&vec![3, 1, 3, 2]);
    assert_eq!(set, HashSet::from([1, 2, 3]));
    let mut list = members_of(&set);
    list.sort();
    assert_eq!(list, vec![1, 2, 3]);
    assert!(members_of(&set_of(&Vec::new())).is_empty());
}
