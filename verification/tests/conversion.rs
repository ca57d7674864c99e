use nfa_converter::api::convert::{
    build_dfa_output, build_nfa, build_nfa_output, convert_nfa_to_dfa, convert_nfa_to_minimized_dfa,
    validate_nfa_input, ConversionError, ConversionResponse, DFAOutput, NFAInput, NFAOutput,
    ValidationError,
};
use nfa_converter::converter::nfa_to_dfa;
use std::collections::HashSet;

fn sample() -> NFAInput {
    NFAInput {
        states: vec![0, 1, 2],
        alphabet: vec!['a', 'b'],
        transitions: vec![
            (0, None, vec![1]),
            (1, Some('a'), vec![2, 1]),
            (2, Some('b'), vec![0]),
        ],
        start: 0,
        accept: vec![2],
    }
}

#[test]
fn validate_accepts_a_sound_description() {
    assert_eq!(validate_nfa_input(&sample()), Ok(()));
}

#[test]
fn validate_rejects_an_empty_list_of_states() {
    let mut input = sample();
    input.states = vec![];
    input.alphabet = vec![];
    assert_eq!(validate_nfa_input(&input), Err(ValidationError::EmptyStates));
}

#[test]
fn validate_rejects_an_empty_alphabet() {
    let mut input = sample();
    input.alphabet = vec![];
    input.start = 9;
    assert_eq!(validate_nfa_input(&input), Err(ValidationError::EmptyAlphabet));
}

#[test]
fn validate_rejects_an_unknown_start_state() {
    let mut input = sample();
    input.start = 7;
    input.accept = vec![8];
    assert_eq!(validate_nfa_input(&input), Err(ValidationError::UnknownStart(7)));
}

#[test]
fn validate_names_the_first_unknown_accepting_state() {
    let mut input = sample();
    input.accept = vec![2, 5, 0, 6];
    input.transitions = vec![(9, None, vec![])];
    assert_eq!(validate_nfa_input(&input), Err(ValidationError::UnknownAccept(5)));
}

#[test]
fn validate_rejects_a_transition_from_an_unknown_state() {
    let mut input = sample();
    input.transitions.push((4, Some('z'), vec![]));
    assert_eq!(validate_nfa_input(&input), Err(ValidationError::UnknownSource(4)));
}

#[test]
fn validate_rejects_a_symbol_outside_the_alphabet() {
    let mut input = sample();
    input.transitions.push((1, Some('z'), vec![9]));
    assert_eq!(validate_nfa_input(&input), Err(ValidationError::UnknownSymbol('z')));
}

#[test]
fn validate_names_the_first_unknown_destination() {
    let mut input = sample();
    input.transitions.push((1, Some('b'), vec![0, 8, 9]));
    assert_eq!(validate_nfa_input(&input), Err(ValidationError::UnknownTarget(8)));
}

#[test]
fn validate_rejects_a_transition_without_destinations() {
    let mut input = sample();
    input.transitions.push((1, None, vec![]));
    assert_eq!(validate_nfa_input(&input), Err(ValidationError::EmptyTargets(1)));
}

#[test]
fn validate_reports_the_first_faulty_transition() {
    let mut input = sample();
    input.transitions.insert(1, (2, Some('a'), vec![]));
    input.transitions.push((9, None, vec![0]));
    assert_eq!(validate_nfa_input(&input), Err(ValidationError::EmptyTargets(2)));
}

#[test]
fn build_nfa_turns_lists_into_sets() {
    let input = NFAInput {
        states: vec![2, 0, 1, 2],
        alphabet: vec!['b', 'a', 'b'],
        transitions: vec![(0, Some('a'), vec![1, 1, 0]), (0, Some('a'), vec![2])],
        start: 0,
        accept: vec![2, 2],
    };
    let nfa = build_nfa(&input);
    assert_eq!(nfa.q, HashSet::from([0, 1, 2]));
    assert_eq!(nfa.alphabet, vec!['b', 'a']);
    assert_eq!(nfa.q0, 0);
    assert_eq!(nfa.f, HashSet::from([2]));
    assert_eq!(nfa.trxn.len(), 2);
    assert_eq!(nfa.trxn[0], (0, Some('a'), HashSet::from([0, 1])));
    // The later record for (0, 'a') counts.
    assert_eq!(nfa.step_over(&HashSet::from([0]), 'a'), HashSet::from([2]));
}

#[test]
fn build_nfa_output_echoes_the_description() {
    let input = sample();
    let output = build_nfa_output(&input);
    assert_eq!(
        output,
        NFAOutput {
            states: vec![0, 1, 2],
            alphabet: vec!['a', 'b'],
            transitions: vec![
                (0, None, vec![1]),
                (1, Some('a'), vec![2, 1]),
                (2, Some('b'), vec![0]),
            ],
            start: 0,
            accept: vec![2],
        }
    );
}

#[test]
fn build_dfa_output_lists_the_automaton() {
    let dfa = nfa_to_dfa(&build_nfa(&sample()));
    let output = build_dfa_output(&dfa);
    assert_eq!(
        output,
        DFAOutput {
            states: vec![0, 1],
            alphabet: vec!['a', 'b'],
            transitions: vec![(0, 'a', 1), (1, 'a', 1), (1, 'b', 0)],
            start: 0,
            accept: vec![1],
        }
    );
}

#[test]
fn convert_nfa_to_dfa_answers_with_both_automata() {
    let input = NFAInput {
        states: vec![0, 1],
        alphabet: vec!['a'],
        transitions: vec![(0, Some('a'), vec![0, 1])],
        start: 0,
        accept: vec![1],
    };
    let expected = ConversionResponse {
        nfa: NFAOutput {
            states: vec![0, 1],
            alphabet: vec!['a'],
            transitions: vec![(0, Some('a'), vec![0, 1])],
            start: 0,
            accept: vec![1],
        },
        dfa: DFAOutput {
            states: vec![0, 1],
            alphabet: vec!['a'],
            transitions: vec![(0, 'a', 1), (1, 'a', 1)],
            start: 0,
            accept: vec![1],
        },
    };
    assert_eq!(convert_nfa_to_dfa(&input), Ok(expected));
}

#[test]
fn convert_nfa_to_minimized_dfa_minimizes_the_construction() {
    let input = NFAInput {
        states: vec![0, 1, 2, 3],
        alphabet: vec!['a', 'b'],
        transitions: vec![
            (0, Some('a'), vec![1]),
            (0, Some('b'), vec![2]),
            (1, Some('a'), vec![3]),
            (2, Some('a'), vec![3]),
        ],
        start: 0,
        accept: vec![3],
    };
    let plain = convert_nfa_to_dfa(&input).unwrap();
    assert_eq!(plain.dfa.states, vec![0, 1, 2, 3]);
    let minimized = convert_nfa_to_minimized_dfa(&input).unwrap();
    assert_eq!(minimized.nfa, plain.nfa);
    assert_eq!(
        minimized.dfa,
        DFAOutput {
            states: vec![0, 1, 2],
            alphabet: vec!['a', 'b'],
            transitions: vec![(0, 'a', 1), (0, 'b', 1), (1, 'a', 2)],
            start: 0,
            accept: vec![2],
        }
    );
}

#[test]
fn convert_hands_on_what_validation_finds() {
    let mut input = sample();
    input.start = 3;
    assert_eq!(
        convert_nfa_to_dfa(&input),
        Err(ConversionError::Invalid(ValidationError::UnknownStart(3)))
    );
    assert_eq!(
        convert_nfa_to_minimized_dfa(&input),
        Err(ConversionError::Invalid(ValidationError::UnknownStart(3)))
    );
}

#[test]
fn convert_of_an_automaton_that_accepts_nothing() {
    let input = NFAInput {
        states: vec![0, 1],
        alphabet: vec!['a', 'b'],
        transitions: vec![(0, Some('a'), vec![1])],
        start: 0,
        accept: vec![],
    };
    let minimized = convert_nfa_to_minimized_dfa(&input).unwrap();
    assert_eq!(
        minimized.dfa,
        DFAOutput {
            states: vec![0],
            alphabet: vec!['a', 'b'],
            transitions: vec![(0, 'a', 0), (0, 'b', 0)],
            start: 0,
            accept: vec![],
        }
    );
}
