//! Validation of an automaton description, the two conversions on it, and
//! the descriptions of their results.

use crate::converter::try_nfa_to_dfa;
use crate::dfa::{dfa_delta, dfa_keys_sorted, dfa_keys_unique, DfaView, DFA};
use crate::minimal_form::is_minimization;
use crate::minimizer::minimize_dfa;
use crate::nfa::{lemma_nfa_find, nfa_find, NfaView, NFA};
use crate::state_set::{copy_symbols, strictly_increasing, State, StateSet, Symbol};
use crate::subset_form::{converts_to, subsets_fit};
use std::collections::HashSet;
use vstd::prelude::*;

verus! {

/// One transition of a description: the state it leaves, the symbol it reads
/// (none for an epsilon transition) and the states it leads to.
pub type TransitionRecord = (State, Option<Symbol>, Vec<State>);

/// The description of an NFA as it comes in.
#[derive(Clone, Debug, PartialEq, Eq)]
pub struct NFAInput {
    pub states: Vec<State>,
    pub alphabet: Vec<Symbol>,
    pub transitions: Vec<TransitionRecord>,
    pub start: State,
    pub accept: Vec<State>,
}

/// The description of an NFA as it is echoed back.
#[derive(Clone, Debug, PartialEq, Eq)]
pub struct NFAOutput {
    pub states: Vec<State>,
    pub alphabet: Vec<Symbol>,
    pub transitions: Vec<TransitionRecord>,
    pub start: State,
    pub accept: Vec<State>,
}

/// The description of a DFA as it goes out.
#[derive(Clone, Debug, PartialEq, Eq)]
pub struct DFAOutput {
    pub states: Vec<State>,
    pub alphabet: Vec<Symbol>,
    pub transitions: Vec<(State, Symbol, State)>,
    pub start: State,
    pub accept: Vec<State>,
}

/// The answer to a conversion: the NFA as it was described, and the DFA made of it.
#[derive(Clone, Debug, PartialEq, Eq)]
pub struct ConversionResponse {
    pub nfa: NFAOutput,
    pub dfa: DFAOutput,
}

/// Why a description is not that of an NFA.
#[derive(Clone, Copy, Debug, PartialEq, Eq)]
pub enum ValidationError {
    /// The list of states is empty.
    EmptyStates,
    /// The alphabet is empty.
    EmptyAlphabet,
    /// The start state is not in the list of states.
    UnknownStart(State),
    /// This accepting state is not in the list of states.
    UnknownAccept(State),
    /// A transition leaves this state, which is not in the list of states.
    UnknownSource(State),
    /// A transition reads this symbol, which is not in the alphabet.
    UnknownSymbol(Symbol),
    /// A transition leads to this state, which is not in the list of states.
    UnknownTarget(State),
    /// A transition that leaves this state leads nowhere.
    EmptyTargets(State),
}

/// Why a conversion gave no DFA.
#[derive(Clone, Copy, Debug, PartialEq, Eq)]
pub enum ConversionError {
    /// The description is not that of an NFA.
    Invalid(ValidationError),
    /// The NFA has more reachable subsets than there are state identifiers.
    TooManyStates,
}

/// The first state of `list`, from position `from` on, that is not among `known`.
pub open spec fn first_unknown(list: Seq<State>, known: Seq<State>, from: int) -> Option<State>
    decreases list.len() - from,
{
    if from < 0 || from >= list.len() {
        None
    } else if !known.contains(list[from]) {
        Some(list[from])
    } else {
        first_unknown(list, known, from + 1)
    }
}

/// What is wrong with one transition record, if anything: its source is
/// tested first, then its symbol, then its destinations in order, then
/// whether there is a destination at all.
pub open spec fn record_error(record: TransitionRecord, states: Seq<State>, alphabet: Seq<Symbol>) -> Option<
    ValidationError,
> {
    if !states.contains(record.0) {
        Some(ValidationError::UnknownSource(record.0))
    } else if record.1 is Some && !alphabet.contains(record.1.unwrap()) {
        Some(ValidationError::UnknownSymbol(record.1.unwrap()))
    } else if first_unknown(record.2@, states, 0) is Some {
        Some(ValidationError::UnknownTarget(first_unknown(record.2@, states, 0).unwrap()))
    } else if record.2@.len() == 0 {
        Some(ValidationError::EmptyTargets(record.0))
    } else {
        None
    }
}

/// What is wrong with the first faulty transition record from position `from` on.
pub open spec fn first_record_error(
    records: Seq<TransitionRecord>,
    states: Seq<State>,
    alphabet: Seq<Symbol>,
    from: int,
) -> Option<ValidationError>
    decreases records.len() - from,
{
    if from < 0 || from >= records.len() {
        None
    } else if record_error(records[from], states, alphabet) is Some {
        record_error(records[from], states, alphabet)
    } else {
        first_record_error(records, states, alphabet, from + 1)
    }
}

/// The first thing that is wrong with a description, if anything: the lists
/// of states and symbols are tested first, then the start state, then the
/// accepting states in order, then the transitions in order.
pub open spec fn first_error(input: NFAInput) -> Option<ValidationError> {
    if input.states@.len() == 0 {
        Some(ValidationError::EmptyStates)
    } else if input.alphabet@.len() == 0 {
        Some(ValidationError::EmptyAlphabet)
    } else if !input.states@.contains(input.start) {
        Some(ValidationError::UnknownStart(input.start))
    } else if first_unknown(input.accept@, input.states@, 0) is Some {
        Some(ValidationError::UnknownAccept(first_unknown(input.accept@, input.states@, 0).unwrap()))
    } else {
        first_record_error(input.transitions@, input.states@, input.alphabet@, 0)
    }
}

/// The symbols of a list, each once, in the order in which they first occur.
pub open spec fn distinct_symbols(list: Seq<Symbol>) -> Seq<Symbol>
    decreases list.len(),
{
    if list.len() == 0 {
        Seq::empty()
    } else if distinct_symbols(list.drop_last()).contains(list.last()) {
        distinct_symbols(list.drop_last())
    } else {
        distinct_symbols(list.drop_last()).push(list.last())
    }
}

/// The position of the record that a list of transition records gives for
/// `(s, a)`: the last one for this pair.
pub open spec fn record_find(records: Seq<TransitionRecord>, s: State, a: Option<Symbol>) -> Option<int>
    decreases records.len(),
{
    if records.len() == 0 {
        None
    } else if records.last().0 == s && records.last().1 == a {
        Some(records.len() - 1)
    } else {
        record_find(records.drop_last(), s, a)
    }
}

/// The NFA that a description describes. Where several transition records
/// are for one state and symbol, the last one counts.
pub open spec fn described_nfa(input: NFAInput) -> NfaView {
    NfaView {
        states: input.states@.to_set(),
        alphabet: distinct_symbols(input.alphabet@),
        delta: Map::new(
            |k: (State, Option<Symbol>)| record_find(input.transitions@, k.0, k.1) is Some,
            |k: (State, Option<Symbol>)| input.transitions@[record_find(input.transitions@, k.0, k.1).unwrap()].2@.to_set(),
        ),
        start: input.start,
        accept: input.accept@.to_set(),
    }
}

/// The DFA that a description describes.
pub open spec fn described_dfa(output: DFAOutput) -> DfaView {
    DfaView {
        states: output.states@.to_set(),
        alphabet: output.alphabet@,
        delta: dfa_delta(output.transitions@),
        start: output.start,
        accept: output.accept@.to_set(),
    }
}

/// The records of a list with their destinations as plain sequences.
pub open spec fn plain_records(records: Seq<TransitionRecord>) -> Seq<(State, Option<Symbol>, Seq<State>)> {
    Seq::new(records.len(), |i: int| (records[i].0, records[i].1, records[i].2@))
}

/// The list has the distinct symbols of itself without repetition, and no others.
pub proof fn lemma_distinct_symbols(list: Seq<Symbol>)
    ensures
        distinct_symbols(list).no_duplicates(),
        forall|a: Symbol| distinct_symbols(list).contains(a) <==> list.contains(a),
        list.len() > 0 ==> distinct_symbols(list).len() > 0,
    decreases list.len(),
{
    if list.len() > 0 {
        let front = list.drop_last();
        let d = distinct_symbols(front);
        lemma_distinct_symbols(front);
        assert forall|a: Symbol| distinct_symbols(list).contains(a) <==> list.contains(a) by {
            assert(d.contains(a) <==> front.contains(a));
            if list.contains(a) {
                let i = choose|i: int| 0 <= i < list.len() && list[i] == a;
                if i < front.len() {
                    assert(front[i] == a);
                    assert(front.contains(a));
                    let j = choose|j: int| 0 <= j < d.len() && d[j] == a;
                    if !d.contains(list.last()) {
                        assert(d.push(list.last())[j] == a);
                    }
                } else if !d.contains(list.last()) {
                    assert(d.push(list.last())[d.len() as int] == a);
                }
            }
            if distinct_symbols(list).contains(a) {
                let j = choose|j: int| 0 <= j < distinct_symbols(list).len() && distinct_symbols(list)[j] == a;
                if j < d.len() {
                    assert(d[j] == a);
                    assert(d.contains(a));
                    let i = choose|i: int| 0 <= i < front.len() && front[i] == a;
                    assert(list[i] == a);
                } else {
                    assert(list[list.len() - 1] == a);
                }
            }
        }
        if !d.contains(list.last()) {
            assert(d.push(list.last())[d.len() as int] == list.last());
        } else {
            let j = choose|j: int| 0 <= j < d.len() && d[j] == list.last();
        }
    }
}

/// Whether `symbol` is in the list.
fn has_symbol(list: &Vec<Symbol>, symbol: Symbol) -> (found: bool)
    ensures
        found == list@.contains(symbol),
{
    let mut i: usize = 0;
    while i < list.len()
        invariant
            i <= list@.len(),
            forall|j: int| 0 <= j < i ==> list@[j] != symbol,
        decreases list@.len() - i,
    {
        if list[i] == symbol {
            return true;
        }
        i = i + 1;
    }
    false
}

/// The first state of `list` that is not in `known`.
fn find_unknown(list: &Vec<State>, known: &StateSet, Ghost(states): Ghost<Seq<State>>) -> (unknown: Option<State>)
    requires
        known@ == states.to_set(),
    ensures
        unknown == first_unknown(list@, states, 0),
{
    let mut i: usize = 0;
    while i < list.len()
        invariant
            i <= list@.len(),
            known@ == states.to_set(),
            first_unknown(list@, states, 0) == first_unknown(list@, states, i as int),
        decreases list@.len() - i,
    {
        if !known.contains(list[i]) {
            return Some(list[i]);
        }
        i = i + 1;
    }
    None
}

/// Tests a description against the referential invariants of an NFA and
/// names the first thing that is wrong with it.
pub fn validate_nfa_input(input: &NFAInput) -> (verdict: Result<(), ValidationError>)
    ensures
        match verdict {
            Ok(_) => first_error(*input) is None,
            Err(error) => first_error(*input) == Some(error),
        },
{
    // Check if states list is not empty.
    if input.states.len() == 0 {
        return Err(ValidationError::EmptyStates);
    }
    // Check if alphabet is not empty.
    if input.alphabet.len() == 0 {
        return Err(ValidationError::EmptyAlphabet);
    }
    let state_set = StateSet::from_vec(&input.states);
    // Check if start state is in states list.
    if !state_set.contains(input.start) {
        return Err(ValidationError::UnknownStart(input.start));
    }
    // Check if all accept states are in states list.
    match find_unknown(&input.accept, &state_set, Ghost(input.states@)) {
        Some(accept_state) => {
            return Err(ValidationError::UnknownAccept(accept_state));
        },
        None => {},
    }
    // Check transitions validity.
    let mut i: usize = 0;
    while i < input.transitions.len()
        invariant
            i <= input.transitions@.len(),
            state_set@ == input.states@.to_set(),
            input.states@.len() != 0,
            input.alphabet@.len() != 0,
            input.states@.contains(input.start),
            first_unknown(input.accept@, input.states@, 0) is None,
            first_record_error(input.transitions@, input.states@, input.alphabet@, 0) == first_record_error(
                input.transitions@,
                input.states@,
                input.alphabet@,
                i as int,
            ),
        decreases input.transitions@.len() - i,
    {
        let record = &input.transitions[i];
        // Check if 'from' state exists.
        if !state_set.contains(record.0) {
            return Err(ValidationError::UnknownSource(record.0));
        }
        // Check if symbol is valid (either in alphabet or epsilon).
        match record.1 {
            Some(symbol) => {
                if !has_symbol(&input.alphabet, symbol) {
                    return Err(ValidationError::UnknownSymbol(symbol));
                }
            },
            None => {},
        }
        // Check if 'to' states exist.
        match find_unknown(&record.2, &state_set, Ghost(input.states@)) {
            Some(to_state) => {
                return Err(ValidationError::UnknownTarget(to_state));
            },
            None => {},
        }
        // Check if to_states is not empty.
        if record.2.len() == 0 {
            return Err(ValidationError::EmptyTargets(record.0));
        }
        i = i + 1;
    }
    Ok(())
}

/// Where no state of a list is unknown, every state of the list is known.
pub proof fn lemma_all_known(list: Seq<State>, known: Seq<State>, from: int)
    requires
        0 <= from,
        first_unknown(list, known, from) is None,
    ensures
        forall|i: int| from <= i < list.len() ==> known.contains(#[trigger] list[i]),
    decreases list.len() - from,
{
    if from < list.len() {
        lemma_all_known(list, known, from + 1);
    }
}

/// Where no record of a list is faulty, nothing is wrong with any of them.
pub proof fn lemma_all_sound(records: Seq<TransitionRecord>, states: Seq<State>, alphabet: Seq<Symbol>, from: int)
    requires
        0 <= from,
        first_record_error(records, states, alphabet, from) is None,
    ensures
        forall|i: int| from <= i < records.len() ==> record_error(#[trigger] records[i], states, alphabet) is None,
    decreases records.len() - from,
{
    if from < records.len() {
        lemma_all_sound(records, states, alphabet, from + 1);
    }
}

/// Lists of records with the same states and symbols at the same positions
/// give the same position for every pair.
proof fn lemma_same_find(
    built: Seq<(State, Option<Symbol>, HashSet<State>)>,
    records: Seq<TransitionRecord>,
    s: State,
    a: Option<Symbol>,
)
    requires
        built.len() == records.len(),
        forall|i: int| 0 <= i < built.len() ==> (#[trigger] built[i]).0 == records[i].0 && built[i].1 == records[i].1,
    ensures
        nfa_find(built, s, a) == record_find(records, s, a),
    decreases built.len(),
{
    if built.len() > 0 {
        assert(built.last().0 == records.last().0 && built.last().1 == records.last().1) by {
            assert(built[built.len() - 1].0 == records[built.len() - 1].0);
        }
        assert forall|i: int| 0 <= i < built.drop_last().len() implies (#[trigger] built.drop_last()[i]).0
            == records.drop_last()[i].0 && built.drop_last()[i].1 == records.drop_last()[i].1 by {
            assert(built[i].0 == records[i].0);
        }
        lemma_same_find(built.drop_last(), records.drop_last(), s, a);
    }
}

/// A found record is one of the list and is a record for the pair asked for.
proof fn lemma_record_find(records: Seq<TransitionRecord>, s: State, a: Option<Symbol>)
    requires
        record_find(records, s, a) is Some,
    ensures
        0 <= record_find(records, s, a).unwrap() < records.len(),
        records[record_find(records, s, a).unwrap()].0 == s,
        records[record_find(records, s, a).unwrap()].1 == a,
    decreases records.len(),
{
    if !(records.last().0 == s && records.last().1 == a) {
        lemma_record_find(records.drop_last(), s, a);
    }
}

/// A description with nothing wrong describes a well-formed NFA.
pub proof fn lemma_valid_input_is_nfa(input: NFAInput)
    requires
        first_error(input) is None,
    ensures
        described_nfa(input).wf(),
{
    let n = described_nfa(input);
    let states = input.states@;
    lemma_distinct_symbols(input.alphabet@);
    lemma_all_known(input.accept@, states, 0);
    lemma_all_sound(input.transitions@, states, input.alphabet@, 0);
    assert(n.accept.subset_of(n.states)) by {
        assert forall|x: State| n.accept.contains(x) implies n.states.contains(x) by {
            let i = choose|i: int| 0 <= i < input.accept@.len() && input.accept@[i] == x;
            assert(states.contains(input.accept@[i]));
        }
    }
    assert forall|s: State, a: Option<Symbol>| #[trigger] n.delta.dom().contains((s, a)) implies {
        &&& n.states.contains(s)
        &&& (a is Some ==> n.alphabet.contains(a.unwrap()))
        &&& n.delta[(s, a)].subset_of(n.states)
        &&& n.delta[(s, a)] != Set::<State>::empty()
    } by {
        lemma_record_find(input.transitions@, s, a);
        let r = record_find(input.transitions@, s, a).unwrap();
        let record = input.transitions@[r];
        assert(record_error(record, states, input.alphabet@) is None);
        lemma_all_known(record.2@, states, 0);
        assert forall|x: State| n.delta[(s, a)].contains(x) implies n.states.contains(x) by {
            let i = choose|i: int| 0 <= i < record.2@.len() && record.2@[i] == x;
            assert(states.contains(record.2@[i]));
        }
        assert(record.2@.contains(record.2@[0]));
        assert(n.delta[(s, a)].contains(record.2@[0]));
    }
}

/// A copy of a list of states.
fn copy_states(states: &Vec<State>) -> (copy: Vec<State>)
    ensures
        copy@ == states@,
{
    let mut copy: Vec<State> = Vec::new();
    let mut k: usize = 0;
    while k < states.len()
        invariant
            k <= states@.len(),
            copy@ == states@.take(k as int),
        decreases states@.len() - k,
    {
        copy.push(states[k]);
        assert(states@.take(k as int).push(states@[k as int]) =~= states@.take(k + 1));
        k = k + 1;
    }
    assert(states@.take(states@.len() as int) =~= states@);
    copy
}

/// Builds the NFA that a description describes.
pub fn build_nfa(input: &NFAInput) -> (nfa: NFA)
    ensures
        nfa@ == described_nfa(*input),
        first_error(*input) is None ==> nfa.wf(),
{
    let mut transitions: Vec<(State, Option<Symbol>, HashSet<State>)> = Vec::new();
    let mut i: usize = 0;
    while i < input.transitions.len()
        invariant
            i <= input.transitions@.len(),
            transitions@.len() == i,
            forall|j: int|
                0 <= j < i ==> (#[trigger] transitions@[j]).0 == input.transitions@[j].0 && transitions@[j].1
                    == input.transitions@[j].1 && transitions@[j].2@ == input.transitions@[j].2@.to_set(),
        decreases input.transitions@.len() - i,
    {
        let record = &input.transitions[i];
        transitions.push((record.0, record.1, StateSet::from_vec(&record.2).to_hash_set()));
        i = i + 1;
    }
    let mut alphabet: Vec<Symbol> = Vec::new();
    let mut k: usize = 0;
    while k < input.alphabet.len()
        invariant
            k <= input.alphabet@.len(),
            alphabet@ == distinct_symbols(input.alphabet@.take(k as int)),
        decreases input.alphabet@.len() - k,
    {
        let symbol = input.alphabet[k];
        proof {
            let grown = input.alphabet@.take(k + 1);
            assert(grown.last() == symbol);
            assert(grown.drop_last() =~= input.alphabet@.take(k as int));
        }
        if !has_symbol(&alphabet, symbol) {
            alphabet.push(symbol);
        }
        k = k + 1;
    }
    assert(input.alphabet@.take(input.alphabet@.len() as int) =~= input.alphabet@);
    let nfa = NFA {
        q: StateSet::from_vec(&input.states).to_hash_set(),
        alphabet,
        trxn: transitions,
        q0: input.start,
        f: StateSet::from_vec(&input.accept).to_hash_set(),
    };
    proof {
        let described = described_nfa(*input);
        assert(nfa@.delta =~= described.delta) by {
            assert forall|key: (State, Option<Symbol>)| nfa@.delta.dom().contains(key) <==> described.delta.dom().contains(
                key,
            ) by {
                lemma_same_find(nfa.trxn@, input.transitions@, key.0, key.1);
            }
            assert forall|key: (State, Option<Symbol>)| nfa@.delta.dom().contains(key) implies nfa@.delta[key]
                == described.delta[key] by {
                lemma_same_find(nfa.trxn@, input.transitions@, key.0, key.1);
                lemma_nfa_find(nfa.trxn@, key.0, key.1);
            }
        }
        if first_error(*input) is None {
            lemma_valid_input_is_nfa(*input);
        }
    }
    nfa
}

/// The description of the NFA, as it came in.
pub fn build_nfa_output(input: &NFAInput) -> (output: NFAOutput)
    ensures
        output.states@ == input.states@,
        output.alphabet@ == input.alphabet@,
        plain_records(output.transitions@) == plain_records(input.transitions@),
        output.start == input.start,
        output.accept@ == input.accept@,
{
    let mut transitions: Vec<TransitionRecord> = Vec::new();
    let mut i: usize = 0;
    while i < input.transitions.len()
        invariant
            i <= input.transitions@.len(),
            transitions@.len() == i,
            forall|j: int|
                0 <= j < i ==> (#[trigger] transitions@[j]).0 == input.transitions@[j].0 && transitions@[j].1
                    == input.transitions@[j].1 && transitions@[j].2@ == input.transitions@[j].2@,
        decreases input.transitions@.len() - i,
    {
        let record = &input.transitions[i];
        transitions.push((record.0, record.1, copy_states(&record.2)));
        i = i + 1;
    }
    assert(plain_records(transitions@) =~= plain_records(input.transitions@));
    NFAOutput {
        states: copy_states(&input.states),
        alphabet: copy_symbols(&input.alphabet),
        transitions,
        start: input.start,
        accept: copy_states(&input.accept),
    }
}

/// The description of a DFA: its states and its accepting states in
/// increasing order, its transitions as they are recorded.
pub fn build_dfa_output(dfa: &DFA) -> (output: DFAOutput)
    ensures
        strictly_increasing(output.states@),
        output.states@.to_set() == dfa.q@,
        output.alphabet@ == dfa.alphabet@,
        output.transitions@ == dfa.trxn@,
        output.start == dfa.q0,
        strictly_increasing(output.accept@),
        output.accept@.to_set() == dfa.f@,
        described_dfa(output) == dfa@,
{
    let mut transitions: Vec<(State, Symbol, State)> = Vec::new();
    let mut i: usize = 0;
    while i < dfa.trxn.len()
        invariant
            i <= dfa.trxn@.len(),
            transitions@ == dfa.trxn@.take(i as int),
        decreases dfa.trxn@.len() - i,
    {
        transitions.push(dfa.trxn[i]);
        assert(dfa.trxn@.take(i as int).push(dfa.trxn@[i as int]) =~= dfa.trxn@.take(i + 1));
        i = i + 1;
    }
    assert(dfa.trxn@.take(dfa.trxn@.len() as int) =~= dfa.trxn@);
    let states = StateSet::from_hash_set(&dfa.q);
    let accept = StateSet::from_hash_set(&dfa.f);
    proof {
        use_type_invariant(&states);
        use_type_invariant(&accept);
        states.lemma_seq();
        accept.lemma_seq();
    }
    DFAOutput {
        states: states.to_vec(),
        alphabet: copy_symbols(&dfa.alphabet),
        transitions,
        start: dfa.q0,
        accept: accept.to_vec(),
    }
}

/// The response echoes the description it answers.
pub open spec fn echoes(output: NFAOutput, input: NFAInput) -> bool {
    &&& output.states@ == input.states@
    &&& output.alphabet@ == input.alphabet@
    &&& plain_records(output.transitions@) == plain_records(input.transitions@)
    &&& output.start == input.start
    &&& output.accept@ == input.accept@
}

/// The description lists states and accepting states in increasing order,
/// and the transitions state by state and, for each state, in the order of
/// the alphabet, none of them twice.
pub open spec fn listed_in_order(output: DFAOutput) -> bool {
    &&& strictly_increasing(output.states@)
    &&& strictly_increasing(output.accept@)
    &&& dfa_keys_sorted(output.alphabet@, output.transitions@)
    &&& dfa_keys_unique(output.transitions@)
}

/// Converts the described NFA to a DFA by subset construction.
pub fn convert_nfa_to_dfa(input: &NFAInput) -> (answer: Result<ConversionResponse, ConversionError>)
    ensures
        match answer {
            Ok(response) => {
                &&& first_error(*input) is None
                &&& subsets_fit(described_nfa(*input))
                &&& echoes(response.nfa, *input)
                &&& converts_to(described_nfa(*input), described_dfa(response.dfa))
                &&& listed_in_order(response.dfa)
                &&& forall|w: Seq<Symbol>|
                    described_dfa(response.dfa).accepts(w) == described_nfa(*input).accepts(w)
            },
            Err(ConversionError::Invalid(error)) => first_error(*input) == Some(error),
            Err(ConversionError::TooManyStates) => first_error(*input) is None && !subsets_fit(
                described_nfa(*input),
            ),
        },
{
    // Validate input.
    match validate_nfa_input(input) {
        Err(error) => {
            return Err(ConversionError::Invalid(error));
        },
        Ok(_) => {},
    }
    let nfa = build_nfa(input);
    match try_nfa_to_dfa(&nfa) {
        Some(dfa) => Ok(ConversionResponse { nfa: build_nfa_output(input), dfa: build_dfa_output(&dfa) }),
        None => Err(ConversionError::TooManyStates),
    }
}

/// Converts the described NFA to a DFA by subset construction, and that DFA
/// to its minimal form.
pub fn convert_nfa_to_minimized_dfa(input: &NFAInput) -> (answer: Result<ConversionResponse, ConversionError>)
    ensures
        match answer {
            Ok(response) => {
                &&& first_error(*input) is None
                &&& subsets_fit(described_nfa(*input))
                &&& echoes(response.nfa, *input)
                &&& exists|d: DfaView|
                    converts_to(described_nfa(*input), d) && is_minimization(d, described_dfa(response.dfa))
                &&& listed_in_order(response.dfa)
                &&& forall|w: Seq<Symbol>|
                    described_dfa(response.dfa).accepts(w) == described_nfa(*input).accepts(w)
            },
            Err(ConversionError::Invalid(error)) => first_error(*input) == Some(error),
            Err(ConversionError::TooManyStates) => first_error(*input) is None && !subsets_fit(
                described_nfa(*input),
            ),
        },
{
    // Validate input.
    match validate_nfa_input(input) {
        Err(error) => {
            return Err(ConversionError::Invalid(error));
        },
        Ok(_) => {},
    }
    let nfa = build_nfa(input);
    match try_nfa_to_dfa(&nfa) {
        Some(dfa) => {
            let minimized_dfa = minimize_dfa(&dfa);
            proof {
                assert(converts_to(described_nfa(*input), dfa@) && is_minimization(dfa@, minimized_dfa@));
            }
            Ok(ConversionResponse { nfa: build_nfa_output(input), dfa: build_dfa_output(&minimized_dfa) })
        },
        None => Err(ConversionError::TooManyStates),
    }
}

} // verus!
