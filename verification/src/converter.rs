//! Subset construction: conversion of an NFA into an equivalent DFA.

use crate::dfa::{
    dfa_delta, dfa_keys_sorted, dfa_keys_unique, dfa_keys_upto, dfa_lookup, lemma_dfa_lookup_push,
    lemma_sorted_keys_empty, lemma_sorted_keys_later, lemma_sorted_keys_push,
    lemma_sorted_keys_unique, symbol_before, DfaView, DFA,
};
use crate::nfa::{NfaView, NFA};
use crate::state_set::{
    add_state, copy_symbols, inhabited, meets, set_views, State, StateSet, Symbol,
};
use crate::subset_form::{
    all_reachable, converts_to, found_before, is_subset_construction, lemma_converted_fits,
    lemma_reachable_next, lemma_reachable_start, lemma_subset_construction_preserves_language,
    lemma_uninhabited, reachable_subset, subset_edge, subsets_fit,
};
use std::collections::HashSet;
use vstd::pervasive::unreached;
use vstd::prelude::*;

verus! {

/// Converts an NFA to an equivalent DFA using subset construction.
///
/// The states of the DFA stand for the sets of states that the NFA can be
/// in; they are numbered from 0, the start subset first, in the order in
/// which a breadth-first search that takes the symbols in the order of the
/// alphabet comes upon them. The NFA must have no more reachable subsets
/// than there are state identifiers, which holds of every NFA with at most 32
/// states; [`try_nfa_to_dfa`] asks for nothing of the kind.
pub fn nfa_to_dfa(nfa: &NFA) -> (dfa: DFA)
    requires
        nfa.wf(),
        subsets_fit(nfa@),
    ensures
        converts_to(nfa@, dfa@),
        dfa.wf(),
        dfa_keys_sorted(dfa.alphabet@, dfa.trxn@),
        dfa_keys_unique(dfa.trxn@),
        forall|w: Seq<Symbol>| dfa@.accepts(w) == nfa@.accepts(w),
{
    match try_nfa_to_dfa(nfa) {
        Some(dfa) => dfa,
        None => unreached(),
    }
}

/// Converts an NFA to an equivalent DFA using subset construction; gives
/// `None` where the NFA has more reachable subsets than there are state
/// identifiers.
pub fn try_nfa_to_dfa(nfa: &NFA) -> (converted: Option<DFA>)
    requires
        nfa.wf(),
    ensures
        match converted {
            Some(dfa) => {
                &&& subsets_fit(nfa@)
                &&& converts_to(nfa@, dfa@)
                &&& dfa.wf()
                &&& dfa_keys_sorted(dfa.alphabet@, dfa.trxn@)
                &&& dfa_keys_unique(dfa.trxn@)
                &&& forall|w: Seq<Symbol>| dfa@.accepts(w) == nfa@.accepts(w)
            },
            None => !subsets_fit(nfa@),
        },
{
    let ghost n = nfa@;
    let mut dfa_states: Vec<StateSet> = Vec::new();
    let mut dfa_transitions: Vec<(State, Symbol, State)> = Vec::new();
    let mut dfa_accept_states: HashSet<State> = HashSet::new();

    // Start with epsilon closure of NFA start state.
    let mut start = StateSet::new();
    start.insert(nfa.q0);
    assert(start@ =~= set![nfa.q0]);
    let start_closure = nfa.closure_of(&start);
    dfa_states.push(start_closure);
    proof {
        let labels = set_views(dfa_states@);
        assert(labels[0] == n.start_set());
        assert(dfa_transitions@ =~= Seq::empty());
        lemma_begin(n, labels);
        lemma_sorted_keys_empty(n.alphabet, dfa_transitions@);
    }

    // Process each DFA state, in the order of discovery.
    let mut i: usize = 0;
    while i < dfa_states.len()
        invariant
            n == nfa@,
            n.wf(),
            i <= dfa_states@.len(),
            dfa_keys_sorted(n.alphabet, dfa_transitions@),
            dfa_keys_upto(n.alphabet, dfa_transitions@, i as int, 0),
            building(
                n,
                draft(n.alphabet, dfa_transitions@, dfa_accept_states@),
                set_views(dfa_states@),
                i as int,
                0,
                i as int,
            ),
        decreases 0x1_0000_0000 - i,
    {
        let ghost labels = set_views(dfa_states@);
        proof {
            lemma_building_bounds(
                n,
                draft(n.alphabet, dfa_transitions@, dfa_accept_states@),
                labels,
                i as int,
                0,
                i as int,
            );
        }
        let current_dfa_state = i as State;
        assert(labels[i as int] == dfa_states@[i as int]@);

        // Check if this DFA state is accepting (contains any NFA accept state).
        let ghost tested_before = dfa_accept_states@;
        if dfa_states[i].meets(&nfa.f) {
            add_state(&mut dfa_accept_states, current_dfa_state);
        }
        proof {
            lemma_marked(n, dfa_transitions@, tested_before, dfa_accept_states@, labels, current_dfa_state);
        }

        // For each input symbol in the alphabet.
        let mut k: usize = 0;
        while k < nfa.alphabet.len()
            invariant
                n == nfa@,
                n.wf(),
                i < dfa_states@.len(),
                current_dfa_state == i,
                k <= nfa.alphabet@.len(),
                dfa_keys_sorted(n.alphabet, dfa_transitions@),
                dfa_keys_upto(n.alphabet, dfa_transitions@, i as int, k as int),
                building(
                    n,
                    draft(n.alphabet, dfa_transitions@, dfa_accept_states@),
                    set_views(dfa_states@),
                    i as int,
                    k as int,
                    i + 1,
                ),
            ensures
                k == nfa.alphabet@.len(),
                i < dfa_states@.len(),
                dfa_keys_sorted(n.alphabet, dfa_transitions@),
                dfa_keys_upto(n.alphabet, dfa_transitions@, i as int, k as int),
                building(
                    n,
                    draft(n.alphabet, dfa_transitions@, dfa_accept_states@),
                    set_views(dfa_states@),
                    i as int,
                    k as int,
                    i + 1,
                ),
            decreases nfa.alphabet@.len() - k,
        {
            let symbol = nfa.alphabet[k];
            let ghost labels = set_views(dfa_states@);
            let ghost recorded = dfa_transitions@;
            assert(labels[i as int] == dfa_states@[i as int]@);
            proof {
                lemma_building_bounds(
                    n,
                    draft(n.alphabet, dfa_transitions@, dfa_accept_states@),
                    labels,
                    i as int,
                    k as int,
                    i + 1,
                );
            }
            // Compute move(nfa_states, symbol).
            let next_states_set = nfa.move_on(&dfa_states[i], symbol);

            if !next_states_set.is_empty() {
                // Take epsilon closure of the result.
                let next_states = nfa.closure_of(&next_states_set);
                proof {
                    if !inhabited(next_states_set@) {
                        lemma_uninhabited(next_states_set@);
                    }
                }
                // Get or create DFA state for this set of NFA states.
                let next_dfa_state = match find_subset(&dfa_states, &next_states) {
                    Some(state) => state,
                    None => {
                        if dfa_states.len() > u32::MAX as usize {
                            proof {
                                lemma_one_too_many(n, labels, current_dfa_state, symbol);
                            }
                            return None;
                        }
                        dfa_states.push(next_states);
                        dfa_states.len() - 1
                    },
                };
                // Add transition.
                dfa_transitions.push((current_dfa_state, symbol, next_dfa_state as State));
                proof {
                    let grown = set_views(dfa_states@);
                    if grown.len() == labels.len() {
                        assert(grown =~= labels);
                    } else {
                        assert(grown =~= labels.push(n.epsilon_closure(n.step_over(labels[i as int], symbol))));
                    }
                    lemma_record(
                        n,
                        recorded,
                        dfa_accept_states@,
                        labels,
                        grown,
                        current_dfa_state,
                        k as int,
                        next_dfa_state as State,
                    );
                    lemma_sorted_keys_push(
                        n.alphabet,
                        recorded,
                        (current_dfa_state, symbol, next_dfa_state as State),
                        k as int,
                    );
                }
            } else {
                proof {
                    assert(!inhabited(next_states_set@));
                    lemma_sorted_keys_later(n.alphabet, dfa_transitions@, i as int, k as int, i as int, k + 1);
                    lemma_skip(
                        n,
                        draft(n.alphabet, dfa_transitions@, dfa_accept_states@),
                        labels,
                        current_dfa_state,
                        k as int,
                        i + 1,
                    );
                }
            }
            k = k + 1;
        }
        proof {
            lemma_sorted_keys_later(n.alphabet, dfa_transitions@, i as int, k as int, i + 1, 0);
            lemma_advance(
                n,
                draft(n.alphabet, dfa_transitions@, dfa_accept_states@),
                set_views(dfa_states@),
                current_dfa_state,
                i + 1,
            );
        }
        i = i + 1;
    }

    // Build the DFA.
    proof {
        lemma_building_bounds(
            n,
            draft(n.alphabet, dfa_transitions@, dfa_accept_states@),
            set_views(dfa_states@),
            i as int,
            0,
            i as int,
        );
    }
    let dfa = DFA {
        q: StateSet::first(dfa_states.len()).to_hash_set(),
        alphabet: copy_symbols(&nfa.alphabet),
        trxn: dfa_transitions,
        q0: 0,
        f: dfa_accept_states,
    };
    proof {
        let d = dfa@;
        let labels = set_views(dfa_states@);
        lemma_building_bounds(n, draft(n.alphabet, dfa.trxn@, dfa.f@), labels, i as int, 0, i as int);
        assert(draft_of(n.alphabet, d.delta, d.accept) == draft(n.alphabet, dfa.trxn@, dfa.f@));
        lemma_built(n, d, labels);
        lemma_sorted_keys_unique(n.alphabet, dfa.trxn@);
        lemma_subset_construction_preserves_language(n, d);
        lemma_converted_fits(n, d);
    }
    Some(dfa)
}

/// The position of a subset in the list of the subsets found so far.
fn find_subset(subsets: &Vec<StateSet>, target: &StateSet) -> (found: Option<usize>)
    ensures
        match found {
            Some(j) => j < subsets@.len() && set_views(subsets@)[j as int] == target@,
            None => !set_views(subsets@).contains(target@),
        },
{
    let mut j: usize = 0;
    while j < subsets.len()
        invariant
            j <= subsets@.len(),
            forall|x: int| 0 <= x < j ==> set_views(subsets@)[x] != target@,
        decreases subsets@.len() - j,
    {
        if subsets[j].equals(target) {
            return Some(j);
        }
        j = j + 1;
    }
    None
}

/// The automaton that the records and accepting states gathered so far stand for.
spec fn draft(alphabet: Seq<Symbol>, trxn: Seq<(State, Symbol, State)>, accept: Set<State>) -> DfaView {
    DfaView { states: Set::empty(), alphabet, delta: dfa_delta(trxn), start: 0, accept }
}

/// The automaton that a transition function and accepting states stand for.
spec fn draft_of(alphabet: Seq<Symbol>, delta: Map<(State, Symbol), State>, accept: Set<State>) -> DfaView {
    DfaView { states: Set::empty(), alphabet, delta, start: 0, accept }
}

/// The search has dealt with symbol `a` of subset `c` when it stands at the
/// `k`-th symbol of subset `i`.
spec fn expanded_on(alphabet: Seq<Symbol>, i: int, k: int, c: State, a: Symbol) -> bool {
    c < i || (c == i && symbol_before(alphabet, k, a))
}

/// What is recorded for `(c, a)` is right where the search has dealt with it, and nothing elsewhere.
spec fn edge_state(n: NfaView, d: DfaView, labels: Seq<Set<State>>, i: int, k: int, c: State, a: Symbol) -> bool {
    if expanded_on(n.alphabet, i, k, c, a) {
        subset_edge(n, labels, c, a, d.step(c, a))
    } else {
        d.step(c, a) is None
    }
}

/// Before a transition reaches a state, every state with a smaller number has been found.
spec fn in_order(d: DfaView) -> bool {
    forall|c: State, k: int, j: State|
        #![trigger found_before(d, c as int, k, j)]
        0 <= k < d.alphabet.len() && d.step(c, d.alphabet[k]) is Some && 0 < j < d.step(
            c,
            d.alphabet[k],
        ).unwrap() ==> found_before(d, c as int, k, j)
}

/// The state of the search when it stands at the `k`-th symbol of subset `i`,
/// with the first `marked` subsets tested for acceptance.
#[verifier::opaque]
spec fn building(n: NfaView, d: DfaView, labels: Seq<Set<State>>, i: int, k: int, marked: int) -> bool {
    &&& 0 < labels.len() <= 0x1_0000_0000
    &&& 0 <= i <= labels.len()
    &&& 0 <= k <= n.alphabet.len()
    &&& 0 <= marked <= labels.len()
    &&& labels[0] == n.start_set()
    &&& labels.no_duplicates()
    &&& all_reachable(n, labels)
    &&& d.alphabet == n.alphabet
    &&& forall|c: State| #[trigger] d.accept.contains(c) <==> c < marked && meets(labels[c as int], n.accept)
    &&& forall|c: State, a: Symbol| #![trigger d.step(c, a)] edge_state(n, d, labels, i, k, c, a)
    &&& forall|j: State| 0 < j < labels.len() ==> #[trigger] found_before(d, i, k, j)
    &&& in_order(d)
}

/// A state found before some point is still found before it, and before any
/// later point, in an automaton that has all transitions of the first.
proof fn lemma_found_later(d: DfaView, e: DfaView, c: int, k: int, c2: int, k2: int, j: State)
    requires
        found_before(d, c, k, j),
        d.alphabet == e.alphabet,
        forall|x: State, a: Symbol| d.step(x, a) is Some ==> #[trigger] e.step(x, a) == d.step(x, a),
        c < c2 || (c == c2 && k <= k2),
    ensures
        found_before(e, c2, k2, j),
{
    let (c0, k0) = choose|c0: State, k0: int|
        0 <= k0 < d.alphabet.len() && (c0 < c || (c0 == c && k0 < k)) && c0 < j && #[trigger] d.step(
            c0,
            d.alphabet[k0],
        ) == Some(j);
    assert(e.step(c0, e.alphabet[k0]) == Some(j));
}

/// The search begins with the start subset alone and nothing recorded.
proof fn lemma_begin(n: NfaView, labels: Seq<Set<State>>)
    requires
        labels.len() == 1,
        labels[0] == n.start_set(),
    ensures
        building(n, draft(n.alphabet, Seq::empty(), Set::empty()), labels, 0, 0, 0),
{
    reveal(building);
    lemma_reachable_start(n);
    let d = draft(n.alphabet, Seq::empty(), Set::empty());
    assert forall|c: State, a: Symbol| #![trigger d.step(c, a)] edge_state(n, d, labels, 0, 0, c, a) by {
        if symbol_before(n.alphabet, 0, a) {
            let x = choose|x: int| 0 <= x < 0 && n.alphabet[x] == a;
        }
    }
}

/// While the search goes on, the subsets found can be numbered by states.
proof fn lemma_building_bounds(n: NfaView, d: DfaView, labels: Seq<Set<State>>, i: int, k: int, marked: int)
    requires
        building(n, d, labels, i, k, marked),
    ensures
        0 < labels.len() <= 0x1_0000_0000,
        labels.no_duplicates(),
        all_reachable(n, labels),
{
    reveal(building);
}

/// The search has tested one more subset for acceptance.
proof fn lemma_marked(
    n: NfaView,
    trxn: Seq<(State, Symbol, State)>,
    accept: Set<State>,
    tested: Set<State>,
    labels: Seq<Set<State>>,
    i: State,
)
    requires
        building(n, draft(n.alphabet, trxn, accept), labels, i as int, 0, i as int),
        i < labels.len(),
        tested == if meets(labels[i as int], n.accept) {
            accept.insert(i)
        } else {
            accept
        },
    ensures
        building(n, draft(n.alphabet, trxn, tested), labels, i as int, 0, i + 1),
{
    reveal(building);
    let d = draft(n.alphabet, trxn, accept);
    let e = draft(n.alphabet, trxn, tested);
    assert forall|c: State| #[trigger] e.accept.contains(c) <==> c < i + 1 && meets(labels[c as int], n.accept) by {
        assert(d.accept.contains(c) <==> c < i && meets(labels[c as int], n.accept));
    }
    assert forall|c: State, a: Symbol| #![trigger e.step(c, a)] edge_state(n, e, labels, i as int, 0, c, a) by {
        assert(edge_state(n, d, labels, i as int, 0, c, a));
    }
    assert forall|j: State| 0 < j < labels.len() implies #[trigger] found_before(e, i as int, 0, j) by {
        assert(found_before(d, i as int, 0, j));
        lemma_found_later(d, e, i as int, 0, i as int, 0, j);
    }
    assert(in_order(e)) by {
        assert forall|c: State, kk: int, j: State|
            #![trigger found_before(e, c as int, kk, j)]
            0 <= kk < e.alphabet.len() && e.step(c, e.alphabet[kk]) is Some && 0 < j < e.step(
                c,
                e.alphabet[kk],
            ).unwrap() implies found_before(e, c as int, kk, j) by {
            assert(found_before(d, c as int, kk, j));
            lemma_found_later(d, e, c as int, kk, c as int, kk, j);
        }
    }
}

/// Where the search comes upon a new subset with every identifier given
/// out, the reachable subsets do not fit.
proof fn lemma_one_too_many(n: NfaView, labels: Seq<Set<State>>, i: State, symbol: Symbol)
    requires
        labels.no_duplicates(),
        all_reachable(n, labels),
        i < labels.len(),
        labels.len() >= 0x1_0000_0000,
        inhabited(n.step_over(labels[i as int], symbol)),
        !labels.contains(n.epsilon_closure(n.step_over(labels[i as int], symbol))),
    ensures
        !subsets_fit(n),
{
    reveal(subsets_fit);
    let family = labels.push(n.epsilon_closure(n.step_over(labels[i as int], symbol)));
    assert(family.no_duplicates()) by {
        assert forall|x: int, y: int| 0 <= x < family.len() && 0 <= y < family.len() && x != y implies family[x]
            != family[y] by {
            if x < labels.len() && y < labels.len() {
                assert(labels[x] != labels[y]);
            } else if x < labels.len() {
                assert(labels.contains(labels[x]));
            } else if y < labels.len() {
                assert(labels.contains(labels[y]));
            }
        }
    }
    assert(all_reachable(n, family)) by {
        assert forall|c: int| 0 <= c < family.len() implies reachable_subset(n, #[trigger] family[c]) by {
            if c < labels.len() {
                assert(reachable_subset(n, labels[c]));
            } else {
                assert(reachable_subset(n, labels[i as int]));
                lemma_reachable_next(n, labels[i as int], symbol);
            }
        }
    }
}

/// The search goes on to the next symbol after recording a transition.
proof fn lemma_record(
    n: NfaView,
    trxn: Seq<(State, Symbol, State)>,
    accept: Set<State>,
    labels: Seq<Set<State>>,
    grown: Seq<Set<State>>,
    i: State,
    k: int,
    target: State,
)
    requires
        n.wf(),
        building(n, draft(n.alphabet, trxn, accept), labels, i as int, k, i + 1),
        i < labels.len(),
        0 <= k < n.alphabet.len(),
        inhabited(n.step_over(labels[i as int], n.alphabet[k])),
        target < grown.len(),
        grown[target as int] == n.epsilon_closure(n.step_over(labels[i as int], n.alphabet[k])),
        grown == labels || (grown == labels.push(n.epsilon_closure(n.step_over(labels[i as int], n.alphabet[k])))
            && !labels.contains(n.epsilon_closure(n.step_over(labels[i as int], n.alphabet[k]))) && labels.len()
            < 0x1_0000_0000 && target == labels.len()),
    ensures
        building(n, draft(n.alphabet, trxn.push((i, n.alphabet[k], target)), accept), grown, i as int, k + 1, i + 1),
        dfa_lookup(trxn, i, n.alphabet[k]) is None,
{
    reveal(building);
    let sigma = n.alphabet;
    let symbol = sigma[k];
    let d = draft(sigma, trxn, accept);
    let e = draft(sigma, trxn.push((i, symbol, target)), accept);
    let moved = n.step_over(labels[i as int], symbol);
    let next = n.epsilon_closure(moved);
    // Nothing was recorded for this pair before.
    assert(!symbol_before(sigma, k, symbol)) by {
        if symbol_before(sigma, k, symbol) {
            let x = choose|x: int| 0 <= x < k && sigma[x] == symbol;
            assert(sigma[x] == sigma[k]);
        }
    }
    assert(edge_state(n, d, labels, i as int, k, i, symbol));
    assert(d.step(i, symbol) is None);
    assert forall|x: State, a: Symbol| #[trigger] e.step(x, a) == if x == i && a == symbol {
        Some(target)
    } else {
        d.step(x, a)
    } by {
        lemma_dfa_lookup_push(trxn, (i, symbol, target), x, a);
    }
    // The labels.
    assert forall|c: int| 0 <= c < labels.len() implies grown[c] == labels[c] by {}
    assert(grown.no_duplicates()) by {
        assert forall|x: int, y: int| 0 <= x < grown.len() && 0 <= y < grown.len() && x != y implies grown[x]
            != grown[y] by {
            if x < labels.len() && y < labels.len() {
                assert(labels[x] != labels[y]);
            } else if x < labels.len() {
                assert(labels.contains(labels[x]));
            } else if y < labels.len() {
                assert(labels.contains(labels[y]));
            }
        }
    }
    assert(all_reachable(n, grown)) by {
        assert forall|c: int| 0 <= c < grown.len() implies reachable_subset(n, #[trigger] grown[c]) by {
            if c < labels.len() {
                assert(reachable_subset(n, labels[c]));
            } else {
                assert(reachable_subset(n, labels[i as int]));
                lemma_reachable_next(n, labels[i as int], symbol);
            }
        }
    }
    assert forall|c: State| #[trigger] e.accept.contains(c) <==> c < i + 1 && meets(grown[c as int], n.accept) by {
        assert(d.accept.contains(c) <==> c < i + 1 && meets(labels[c as int], n.accept));
        if c < i + 1 {
            assert(grown[c as int] == labels[c as int]);
        }
    }
    assert forall|c: State, a: Symbol| #![trigger e.step(c, a)] edge_state(n, e, grown, i as int, k + 1, c, a) by {
        assert(edge_state(n, d, labels, i as int, k, c, a));
        if c == i && a == symbol {
            assert(symbol_before(sigma, k + 1, a));
        } else {
            if symbol_before(sigma, k, a) {
                let x = choose|x: int| 0 <= x < k && sigma[x] == a;
                assert(0 <= x < k + 1 && sigma[x] == a);
            }
            if symbol_before(sigma, k + 1, a) && !(c == i && a == symbol) {
                let x = choose|x: int| 0 <= x < k + 1 && sigma[x] == a;
                if c == i {
                    assert(0 <= x < k && sigma[x] == a);
                }
            }
            if expanded_on(sigma, i as int, k, c, a) {
                assert(grown[c as int] == labels[c as int]);
                if d.step(c, a) is Some {
                    let j = d.step(c, a).unwrap();
                    assert(grown[j as int] == labels[j as int]);
                }
            }
        }
    }
    assert forall|j: State| 0 < j < grown.len() implies #[trigger] found_before(e, i as int, k + 1, j) by {
        if j < labels.len() {
            assert(found_before(d, i as int, k, j));
            lemma_found_later(d, e, i as int, k, i as int, k + 1, j);
        } else {
            assert(e.step(i, e.alphabet[k]) == Some(j));
        }
    }
    assert(in_order(e)) by {
        assert forall|c: State, kk: int, j: State|
            #![trigger found_before(e, c as int, kk, j)]
            0 <= kk < e.alphabet.len() && e.step(c, e.alphabet[kk]) is Some && 0 < j < e.step(
                c,
                e.alphabet[kk],
            ).unwrap() implies found_before(e, c as int, kk, j) by {
            if c == i && sigma[kk] == symbol {
                assert(kk == k);
                assert(found_before(d, i as int, k, j));
                lemma_found_later(d, e, i as int, k, i as int, k, j);
            } else {
                assert(found_before(d, c as int, kk, j));
                lemma_found_later(d, e, c as int, kk, c as int, kk, j);
            }
        }
    }
}

/// The search goes on to the next symbol where the move is empty.
proof fn lemma_skip(n: NfaView, d: DfaView, labels: Seq<Set<State>>, i: State, k: int, marked: int)
    requires
        building(n, d, labels, i as int, k, marked),
        i < labels.len(),
        0 <= k < n.alphabet.len(),
        !inhabited(n.step_over(labels[i as int], n.alphabet[k])),
    ensures
        building(n, d, labels, i as int, k + 1, marked),
{
    reveal(building);
    let sigma = n.alphabet;
    assert forall|c: State, a: Symbol| #![trigger d.step(c, a)] edge_state(n, d, labels, i as int, k + 1, c, a) by {
        assert(edge_state(n, d, labels, i as int, k, c, a));
        if symbol_before(sigma, k, a) {
            let x = choose|x: int| 0 <= x < k && sigma[x] == a;
            assert(0 <= x < k + 1 && sigma[x] == a);
        }
        if symbol_before(sigma, k + 1, a) && a != sigma[k] {
            let x = choose|x: int| 0 <= x < k + 1 && sigma[x] == a;
            assert(0 <= x < k && sigma[x] == a);
        }
    }
    assert forall|j: State| 0 < j < labels.len() implies #[trigger] found_before(d, i as int, k + 1, j) by {
        assert(found_before(d, i as int, k, j));
        lemma_found_later(d, d, i as int, k, i as int, k + 1, j);
    }
}

/// The search goes on to the next subset when it is through the alphabet.
proof fn lemma_advance(n: NfaView, d: DfaView, labels: Seq<Set<State>>, i: State, marked: int)
    requires
        n.wf(),
        building(n, d, labels, i as int, n.alphabet.len() as int, marked),
        i < labels.len(),
    ensures
        building(n, d, labels, i + 1, 0, marked),
{
    reveal(building);
    let sigma = n.alphabet;
    assert forall|c: State, a: Symbol| #![trigger d.step(c, a)] edge_state(n, d, labels, i + 1, 0, c, a) by {
        assert(edge_state(n, d, labels, i as int, sigma.len() as int, c, a));
        if c == i && !symbol_before(sigma, sigma.len() as int, a) {
            if sigma.contains(a) {
                let x = choose|x: int| 0 <= x < sigma.len() && sigma[x] == a;
                assert(symbol_before(sigma, sigma.len() as int, a));
            }
            n.lemma_stays_in_states(labels[i as int], a);
            assert(!inhabited(n.step_over(labels[i as int], a)));
        }
        if c > i && symbol_before(sigma, 0, a) {
            let x = choose|x: int| 0 <= x < 0 && sigma[x] == a;
        }
    }
    assert forall|j: State| 0 < j < labels.len() implies #[trigger] found_before(d, i + 1, 0, j) by {
        assert(found_before(d, i as int, sigma.len() as int, j));
        lemma_found_later(d, d, i as int, sigma.len() as int, i + 1, 0, j);
    }
}

/// When the search is through all subsets, what it has gathered is the subset construction.
proof fn lemma_built(n: NfaView, d: DfaView, labels: Seq<Set<State>>)
    requires
        n.wf(),
        building(n, draft_of(n.alphabet, d.delta, d.accept), labels, labels.len() as int, 0, labels.len() as int),
        forall|c: State| d.states.contains(c) <==> c < labels.len(),
        d.states.finite(),
        d.alphabet == n.alphabet,
        d.start == 0,
    ensures
        is_subset_construction(n, d, labels),
        d.wf(),
{
    reveal(building);
    let e = draft_of(n.alphabet, d.delta, d.accept);
    let len = labels.len() as int;
    assert forall|c: State, a: Symbol| #[trigger] d.step(c, a) == e.step(c, a) by {}
    assert forall|c: State| #[trigger] d.accept.contains(c) <==> c < labels.len() && meets(
        labels[c as int],
        n.accept,
    ) by {
        assert(e.accept.contains(c) <==> c < len && meets(labels[c as int], n.accept));
    }
    assert(d.states.contains(0));
    assert(d.accept.subset_of(d.states));
    assert forall|c: State, a: Symbol| c < labels.len() implies subset_edge(n, labels, c, a, #[trigger] d.step(c, a)) by {
        assert(edge_state(n, e, labels, len, 0, c, a));
    }
    assert forall|c: State, a: Symbol| #[trigger] d.delta.dom().contains((c, a)) implies c < labels.len()
        && d.alphabet.contains(a) && d.delta[(c, a)] < labels.len() by {
        assert(edge_state(n, e, labels, len, 0, c, a));
        assert(d.step(c, a) is Some);
        if c >= labels.len() && symbol_before(n.alphabet, 0, a) {
            let x = choose|x: int| 0 <= x < 0 && n.alphabet[x] == a;
        }
        n.lemma_stays_in_states(labels[c as int], a);
    }
    assert forall|j: State| 0 < j < labels.len() implies #[trigger] found_before(d, len, 0, j) by {
        assert(found_before(e, len, 0, j));
        lemma_found_later(e, d, len, 0, len, 0, j);
    }
    assert forall|c: State, k: int, j: State|
        #![trigger found_before(d, c as int, k, j)]
        0 <= k < d.alphabet.len() && d.step(c, d.alphabet[k]) is Some && 0 < j < d.step(
            c,
            d.alphabet[k],
        ).unwrap() implies found_before(d, c as int, k, j) by {
        assert(found_before(e, c as int, k, j));
        lemma_found_later(e, d, c as int, k, c as int, k, j);
    }
}

} // verus!
