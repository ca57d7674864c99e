//! Reduction of a DFA to its minimal form: unreachable and dead states are
//! dropped, and the states that remain are merged where no word tells them apart.
//!
//! A state that is dropped takes the transitions that lead to it along: for
//! the states that remain, such a transition counts as missing.

use crate::dfa::{
    dfa_keys_sorted, dfa_keys_unique, dfa_keys_upto, dfa_lookup, lemma_dfa_lookup_push,
    lemma_sorted_keys_empty, lemma_sorted_keys_later, lemma_sorted_keys_push,
    lemma_sorted_keys_unique, record_before, symbol_before, DfaView, DFA,
};
use crate::minimal_form::{
    class_index, class_map, classified, is_minimization, is_partition, is_quotient,
    lemma_class_count, lemma_class_index, lemma_class_of_useful, lemma_classes_give_quotient,
    lemma_minimization_preserves_language, lemma_minimization_wf, rejecting_dfa, starts_before,
    useful_step,
};
use crate::pair_table::PairTable;
use crate::state_set::{
    add_state, copy_symbols, has_state, inhabited, listed_before, set_views, State, StateSet,
    Symbol,
};
use crate::table_filling::{
    dense_accepting, dense_steps, lemma_acceptance_tells_apart, lemma_equivalent_chain,
    lemma_marks_exact, lemma_presence_tells_apart, lemma_successors_tell_apart, lists_useful,
    marks_sound, marks_split_accepting, marks_stable, rows, rows_agree, steps_agree,
};
use crate::union_find::UnionFind;
use std::collections::HashMap;
use std::collections::HashSet;
use std::collections::VecDeque;
use vstd::pervasive::unreached;
use vstd::prelude::*;
use vstd::set_lib::lemma_len_subset;
use vstd::std_specs::hash::group_hash_axioms;

verus! {

/// Minimizes a DFA using the table-filling algorithm (Myhill-Nerode theorem).
/// This removes unreachable and dead states and merges equivalent states.
///
/// The result has a state for each class of equivalent useful states,
/// numbered from 0 in the order of the smallest member of each class, or is
/// the one-state automaton that rejects everything where no state is useful.
pub fn minimize_dfa(dfa: &DFA) -> (minimal: DFA)
    requires
        dfa.wf(),
    ensures
        minimal.wf(),
        is_minimization(dfa@, minimal@),
        dfa_keys_sorted(minimal.alphabet@, minimal.trxn@),
        dfa_keys_unique(minimal.trxn@),
        forall|w: Seq<Symbol>| minimal@.accepts(w) == dfa@.accepts(w),
{
    let ghost d = dfa@;
    // Step 1: Remove unreachable states.
    let reachable_states = find_reachable_states(dfa);
    proof {
        assert forall|x: State| reachable_states@.contains(x) implies #[trigger] d.expanded(x, reachable_states@) by {
            assert forall|a: Symbol| #[trigger] d.step(x, a) is Some implies reachable_states@.contains(
                d.step(x, a).unwrap(),
            ) by {
                d.lemma_reachable_step(x, a);
            }
        }
    }
    // Step 2: Remove states from which no accepting state can be reached.
    let mut useful_states = StateSet::new();
    let mut i: usize = 0;
    while i < reachable_states.len()
        invariant
            d == dfa@,
            d.wf(),
            i <= reachable_states.seq().len(),
            forall|s: State| reachable_states@.contains(s) <==> d.reachable(s),
            forall|x: State| reachable_states@.contains(x) ==> #[trigger] d.expanded(x, reachable_states@),
            forall|s: State| #[trigger]
                useful_states@.contains(s) <==> d.useful(s) && listed_before(reachable_states.seq(), i as int, s),
        decreases reachable_states.seq().len() - i,
    {
        let state = reachable_states.get(i);
        let keep = has_state(&dfa.f, state) || has_path_to_accept(dfa, state, &reachable_states);
        proof {
            lemma_live_within_reachable(d, reachable_states@, state);
            if d.accept.contains(state) {
                d.lemma_live_by(state, Seq::<Symbol>::empty());
            }
        }
        let ghost kept = useful_states@;
        if keep {
            useful_states.insert(state);
        }
        proof {
            let listing = reachable_states.seq();
            assert forall|s: State| #[trigger]
                useful_states@.contains(s) <==> d.useful(s) && listed_before(listing, i + 1, s) by {
                if listed_before(listing, i as int, s) {
                    let x = choose|x: int| 0 <= x < i && listing[x] == s;
                    assert(0 <= x < i + 1 && listing[x] == s);
                }
                if s == state {
                    assert(0 <= i < i + 1 && listing[i as int] == s);
                }
                if listed_before(listing, i + 1, s) {
                    let x = choose|x: int| 0 <= x < i + 1 && listing[x] == s;
                    if x < i {
                        assert(listed_before(listing, i as int, s));
                    }
                }
            }
        }
        i = i + 1;
    }
    proof {
        reachable_states.lemma_listing();
        assert forall|s: State| useful_states@.contains(s) <==> d.useful(s) by {
            if d.useful(s) {
                assert(reachable_states.seq().contains(s));
                let x = choose|x: int| 0 <= x < reachable_states.seq().len() && reachable_states.seq()[x] == s;
                assert(listed_before(reachable_states.seq(), i as int, s));
            }
        }
    }
    if useful_states.is_empty() {
        // Nothing is accepted: return the minimal DFA that rejects everything.
        let minimal = create_minimal_rejecting_dfa(dfa);
        proof {
            d.lemma_start_reachable();
            assert(!useful_states@.contains(d.start));
            lemma_minimization_preserves_language(d, minimal@);
            lemma_minimization_wf(d, minimal@);
        }
        return minimal;
    }
    proof {
        if forall|s: State| !useful_states@.contains(s) {
            assert(useful_states@ =~= Set::<State>::empty());
        }
        let s = choose|s: State| useful_states@.contains(s);
        d.lemma_useful_start(s);
    }
    // Step 3: Partition states into equivalence classes.
    let equivalence_classes = partition_states(dfa, &useful_states);
    // Step 4: Build the minimized DFA.
    let minimal = build_minimized_dfa(dfa, &equivalence_classes);
    proof {
        lemma_minimization_preserves_language(d, minimal@);
    }
    minimal
}

/// Among the reachable states, a path to acceptance never leaves them.
proof fn lemma_live_within_reachable(d: DfaView, reachable: Set<State>, s: State)
    requires
        reachable.contains(s),
        forall|x: State| reachable.contains(x) ==> #[trigger] d.expanded(x, reachable),
    ensures
        d.live_within(s, reachable) == d.live(s),
{
    reveal(DfaView::live_within);
    if d.live_within(s, reachable) {
        let (w, t) = choose|w: Seq<Symbol>, t: State| d.leads_within(s, w, t, reachable) && d.accept.contains(t);
        d.lemma_run_within_closed(s, w, reachable);
        d.lemma_live_by(s, w);
    }
    if d.live(s) {
        d.lemma_path_from(s);
        let w = d.path_from(s);
        d.lemma_run_within_closed(s, w, reachable);
        let t = d.run(s, w).unwrap();
        assert(d.leads_within(s, w, t, reachable) && d.accept.contains(t));
    }
}

/// The states that the queue still has to expand are the only members of
/// `seen` whose transitions may lead outside `seen`.
spec fn frontier_ok(d: DfaView, seen: Set<State>, queue: Seq<State>, current: Option<State>) -> bool {
    forall|x: State|
        seen.contains(x) ==> queue.contains(x) || current == Some(x) || #[trigger] d.expanded(x, seen)
}

/// Find all states reachable from the start state.
pub fn find_reachable_states(dfa: &DFA) -> (reachable: StateSet)
    requires
        dfa.wf(),
    ensures
        forall|s: State| reachable@.contains(s) <==> dfa@.reachable(s),
{
    let ghost d = dfa@;
    let mut reachable = StateSet::new();
    let mut queue: VecDeque<State> = VecDeque::new();
    queue.push_back(dfa.q0);
    reachable.insert(dfa.q0);
    proof {
        d.lemma_start_reachable();
        assert(queue@[0] == dfa.q0);
        lemma_reachable_in_states(d, reachable@);
    }
    while queue.len() > 0
        invariant
            d == dfa@,
            d.wf(),
            reachable@.contains(d.start),
            forall|s: State| reachable@.contains(s) ==> d.reachable(s),
            frontier_ok(d, reachable@, queue@, None),
            forall|i: int| 0 <= i < queue@.len() ==> reachable@.contains(#[trigger] queue@[i]),
            reachable@.len() <= d.states.len(),
        decreases d.states.len() - reachable@.len() + queue@.len(),
    {
        let ghost before = queue@;
        let state = queue.pop_front().unwrap();
        assert(reachable@.contains(state));
        proof {
            assert forall|x: State| reachable@.contains(x) implies queue@.contains(x) || Some(state) == Some(x)
                || #[trigger] d.expanded(x, reachable@) by {
                if before.contains(x) && x != state {
                    let i = choose|i: int| 0 <= i < before.len() && before[i] == x;
                    assert(queue@[i - 1] == x);
                }
            }
        }
        let ghost budget = d.states.len() - reachable@.len() + queue@.len();
        let mut k: usize = 0;
        while k < dfa.alphabet.len()
            invariant
                d == dfa@,
                d.wf(),
                k <= dfa.alphabet@.len(),
                reachable@.contains(d.start),
                reachable@.contains(state),
                forall|s: State| reachable@.contains(s) ==> d.reachable(s),
                frontier_ok(d, reachable@, queue@, Some(state)),
                forall|i: int| 0 <= i < queue@.len() ==> reachable@.contains(#[trigger] queue@[i]),
                forall|j: int|
                    0 <= j < k && (#[trigger] d.step(state, d.alphabet[j])) is Some ==> reachable@.contains(
                        d.step(state, d.alphabet[j]).unwrap(),
                    ),
                reachable@.len() <= d.states.len(),
                d.states.len() - reachable@.len() + queue@.len() == budget,
            decreases dfa.alphabet@.len() - k,
        {
            let symbol = dfa.alphabet[k];
            match dfa.step_over(state, symbol) {
                Some(next_state) => {
                    if !reachable.contains(next_state) {
                        let ghost seen = reachable@;
                        let ghost waiting = queue@;
                        proof {
                            reachable.lemma_finite();
                        }
                        reachable.insert(next_state);
                        queue.push_back(next_state);
                        proof {
                            d.lemma_reachable_step(state, symbol);
                            lemma_reachable_in_states(d, reachable@);
                            assert(queue@[waiting.len() as int] == next_state);
                            assert forall|x: State| reachable@.contains(x) implies queue@.contains(x) || Some(
                                state,
                            ) == Some(x) || #[trigger] d.expanded(x, reachable@) by {
                                if x != next_state {
                                    if waiting.contains(x) {
                                        let i = choose|i: int| 0 <= i < waiting.len() && waiting[i] == x;
                                        assert(queue@[i] == x);
                                    } else if x != state {
                                        assert(d.expanded(x, seen));
                                    }
                                }
                            }
                        }
                    }
                },
                None => {},
            }
            k = k + 1;
        }
        proof {
            assert(d.expanded(state, reachable@)) by {
                assert forall|a: Symbol| #[trigger] d.step(state, a) is Some implies reachable@.contains(
                    d.step(state, a).unwrap(),
                ) by {
                    assert(d.delta.dom().contains((state, a)));
                    let j = choose|j: int| 0 <= j < d.alphabet.len() && d.alphabet[j] == a;
                    assert(d.step(state, d.alphabet[j]) is Some);
                }
            }
        }
    }
    proof {
        assert forall|s: State| d.reachable(s) implies reachable@.contains(s) by {
            assert forall|x: State| reachable@.contains(x) implies #[trigger] d.expanded(x, reachable@) by {
                if queue@.contains(x) {
                }
            }
            d.lemma_path_to(s);
            d.lemma_closed_run(reachable@, d.start, d.path_to(s));
        }
    }
    reachable
}

/// Reachable states are states, so a finite set of them is no larger than the set of states.
proof fn lemma_reachable_in_states(d: DfaView, seen: Set<State>)
    requires
        d.wf(),
        forall|s: State| seen.contains(s) ==> d.reachable(s),
    ensures
        seen.subset_of(d.states),
        seen.len() <= d.states.len(),
{
    assert forall|s: State| seen.contains(s) implies d.states.contains(s) by {
        d.lemma_path_to(s);
        d.lemma_run_stays(d.start, d.path_to(s));
    }
    lemma_len_subset(seen, d.states);
}

/// The states still waiting in the queue are the only visited states that may
/// be accepting or have a transition inside `within` that leaves `seen`.
spec fn search_ok(
    d: DfaView,
    seen: Set<State>,
    within: Set<State>,
    queue: Seq<State>,
    current: Option<State>,
) -> bool {
    forall|x: State|
        seen.contains(x) ==> queue.contains(x) || current == Some(x) || #[trigger] settled(d, x, seen, within)
}

/// `x` is not accepting, and every transition out of it that stays in `within` ends in `seen`.
spec fn settled(d: DfaView, x: State, seen: Set<State>, within: Set<State>) -> bool {
    !d.accept.contains(x) && d.expanded_within(x, seen, within)
}

/// Check if there's a path from `state` to any accept state that, after
/// `state` itself, passes only through states of `reachable`.
pub fn has_path_to_accept(dfa: &DFA, state: State, reachable: &StateSet) -> (found: bool)
    requires
        dfa.wf(),
    ensures
        found == dfa@.live_within(state, reachable@),
{
    let ghost d = dfa@;
    let ghost within = reachable@;
    let ghost bound = within.insert(state);
    let mut visited = StateSet::new();
    let mut queue: VecDeque<State> = VecDeque::new();
    queue.push_back(state);
    visited.insert(state);
    proof {
        reachable.lemma_finite();
        assert(queue@[0] == state);
        assert(d.leads_within(state, Seq::<Symbol>::empty(), state, within));
        lemma_len_subset(visited@, bound);
    }
    while queue.len() > 0
        invariant
            d == dfa@,
            d.wf(),
            within == reachable@,
            bound == within.insert(state),
            bound.finite(),
            visited@.contains(state),
            visited@.subset_of(bound),
            forall|v: State| visited@.contains(v) ==> #[trigger] d.reaches_within(state, v, within),
            forall|i: int| 0 <= i < queue@.len() ==> visited@.contains(#[trigger] queue@[i]),
            search_ok(d, visited@, within, queue@, None),
            visited@.len() <= bound.len(),
        decreases bound.len() - visited@.len() + queue@.len(),
    {
        let ghost before = queue@;
        let current = queue.pop_front().unwrap();
        assert(visited@.contains(current));
        if has_state(&dfa.f, current) {
            proof {
                assert(d.reaches_within(state, current, within));
                let w = choose|w: Seq<Symbol>| d.leads_within(state, w, current, within);
                reveal(DfaView::live_within);
                assert(d.leads_within(state, w, current, within) && d.accept.contains(current));
            }
            return true;
        }
        proof {
            assert forall|x: State| visited@.contains(x) implies queue@.contains(x) || Some(current) == Some(x)
                || #[trigger] settled(d, x, visited@, within) by {
                if before.contains(x) && x != current {
                    let i = choose|i: int| 0 <= i < before.len() && before[i] == x;
                    assert(queue@[i - 1] == x);
                }
            }
        }
        let ghost budget = bound.len() - visited@.len() + queue@.len();
        let mut k: usize = 0;
        while k < dfa.alphabet.len()
            invariant
                d == dfa@,
                d.wf(),
                within == reachable@,
                bound == within.insert(state),
                bound.finite(),
                k <= dfa.alphabet@.len(),
                visited@.contains(state),
                visited@.contains(current),
                !d.accept.contains(current),
                visited@.subset_of(bound),
                forall|v: State| visited@.contains(v) ==> #[trigger] d.reaches_within(state, v, within),
                forall|i: int| 0 <= i < queue@.len() ==> visited@.contains(#[trigger] queue@[i]),
                search_ok(d, visited@, within, queue@, Some(current)),
                forall|j: int|
                    0 <= j < k && (#[trigger] d.step(current, d.alphabet[j])) is Some && within.contains(
                        d.step(current, d.alphabet[j]).unwrap(),
                    ) ==> visited@.contains(d.step(current, d.alphabet[j]).unwrap()),
                visited@.len() <= bound.len(),
                bound.len() - visited@.len() + queue@.len() == budget,
            decreases dfa.alphabet@.len() - k,
        {
            let symbol = dfa.alphabet[k];
            match dfa.step_over(current, symbol) {
                Some(next_state) => {
                    if reachable.contains(next_state) && !visited.contains(next_state) {
                        let ghost seen = visited@;
                        let ghost waiting = queue@;
                        proof {
                            visited.lemma_finite();
                        }
                        visited.insert(next_state);
                        queue.push_back(next_state);
                        proof {
                            assert(d.reaches_within(state, current, within));
                            let w = choose|w: Seq<Symbol>| d.leads_within(state, w, current, within);
                            d.lemma_run_within_snoc(state, w, symbol, within);
                            assert(d.leads_within(state, w.push(symbol), next_state, within));
                            lemma_len_subset(visited@, bound);
                            assert(queue@[waiting.len() as int] == next_state);
                            assert forall|x: State| visited@.contains(x) implies queue@.contains(x) || Some(
                                current,
                            ) == Some(x) || #[trigger] settled(d, x, visited@, within) by {
                                if x != next_state {
                                    if waiting.contains(x) {
                                        let i = choose|i: int| 0 <= i < waiting.len() && waiting[i] == x;
                                        assert(queue@[i] == x);
                                    } else if x != current {
                                        assert(settled(d, x, seen, within));
                                    }
                                }
                            }
                        }
                    }
                },
                None => {},
            }
            k = k + 1;
        }
        proof {
            assert(settled(d, current, visited@, within)) by {
                assert forall|a: Symbol| #[trigger]
                    d.step(current, a) is Some && within.contains(d.step(current, a).unwrap()) implies visited@.contains(
                    d.step(current, a).unwrap(),
                ) by {
                    assert(d.delta.dom().contains((current, a)));
                    let j = choose|j: int| 0 <= j < d.alphabet.len() && d.alphabet[j] == a;
                    assert(d.step(current, d.alphabet[j]) is Some);
                }
            }
        }
    }
    proof {
        reveal(DfaView::live_within);
        assert forall|x: State| visited@.contains(x) implies #[trigger] d.expanded_within(
            x,
            visited@,
            within,
        ) by {
            assert(settled(d, x, visited@, within));
        }
        assert forall|w: Seq<Symbol>, t: State| d.leads_within(state, w, t, within) implies !d.accept.contains(
            t,
        ) by {
            d.lemma_closed_run_within(visited@, within, state, w);
            assert(settled(d, t, visited@, within));
        }
    }
    false
}

/// Partition states into equivalence classes using the table-filling algorithm.
///
/// `useful_states` must be the useful states of the automaton. The classes
/// come in the order of their smallest members.
pub fn partition_states(dfa: &DFA, useful_states: &StateSet) -> (classes: Vec<StateSet>)
    requires
        dfa.wf(),
        forall|s: State| useful_states@.contains(s) <==> dfa@.useful(s),
    ensures
        is_partition(dfa@, set_views(classes@)),
{
    let ghost d = dfa@;
    let ghost u = useful_states.seq();
    proof {
        use_type_invariant(useful_states);
        useful_states.lemma_seq();
        useful_states.lemma_listing();
    }
    let n = useful_states.len();
    let next = dense_transitions(dfa, useful_states);
    let accepting = accepting_flags(dfa, useful_states);

    // Mark pairs where one is accepting and one is not.
    let mut table = PairTable::new(n);
    mark_by_acceptance(&accepting, &mut table, Ghost(d), Ghost(u));

    // Iteratively mark distinguishable pairs.
    let mut changed = true;
    while changed
        invariant
            table.wf(),
            table.size() == u.len(),
            d.wf(),
            lists_useful(d, u),
            dense_steps(d, u, rows(next@)),
            marks_sound(d, u, table),
            accepting@.len() == u.len(),
            marks_split_accepting(accepting@, table),
            !changed ==> marks_stable(rows(next@), table, d.alphabet.len() as int),
        decreases table.unmarked_count(), (if changed { 1int } else { 0int }),
    {
        let ghost before = table;
        changed = refine_marks(&next, &mut table, Ghost(d), Ghost(u));
        proof {
            assert forall|i: int, j: int|
                0 <= i < accepting@.len() && 0 <= j < accepting@.len() && !#[trigger] table.marked(i, j) implies accepting@[i]
                == accepting@[j] by {
                assert(!before.marked(i, j));
            }
        }
    }
    proof {
        lemma_marks_exact(d, u, rows(next@), accepting@, table);
    }

    // Build equivalence classes using union-find.
    let merged = merge_unmarked(&table, n, Ghost(d), Ghost(u));
    collect_classes(merged, useful_states, Ghost(d))
}

/// For each useful state and each symbol, the position of the useful state that follows.
fn dense_transitions(dfa: &DFA, useful_states: &StateSet) -> (next: Vec<Vec<Option<usize>>>)
    requires
        dfa.wf(),
        lists_useful(dfa@, useful_states.seq()),
    ensures
        dense_steps(dfa@, useful_states.seq(), rows(next@)),
{
    let ghost d = dfa@;
    let ghost u = useful_states.seq();
    let n = useful_states.len();
    let mut next: Vec<Vec<Option<usize>>> = Vec::new();
    let mut i: usize = 0;
    while i < n
        invariant
            d == dfa@,
            u == useful_states.seq(),
            lists_useful(d, u),
            n == u.len(),
            i <= n,
            next@.len() == i,
            forall|a: int| 0 <= a < i ==> (#[trigger] next@[a])@.len() == d.alphabet.len(),
            forall|a: int, k: int|
                0 <= a < i && 0 <= k < d.alphabet.len() ==> match #[trigger] next@[a]@[k] {
                    Some(p) => p < u.len() && useful_step(d, u[a], d.alphabet[k]) == Some(u[p as int]),
                    None => useful_step(d, u[a], d.alphabet[k]) is None,
                },
        decreases n - i,
    {
        let state = useful_states.get(i);
        let mut row: Vec<Option<usize>> = Vec::new();
        let mut k: usize = 0;
        while k < dfa.alphabet.len()
            invariant
                d == dfa@,
                u == useful_states.seq(),
                lists_useful(d, u),
                i < u.len(),
                state == u[i as int],
                k <= dfa.alphabet@.len(),
                row@.len() == k,
                forall|c: int|
                    0 <= c < k ==> match #[trigger] row@[c] {
                        Some(p) => p < u.len() && useful_step(d, state, d.alphabet[c]) == Some(u[p as int]),
                        None => useful_step(d, state, d.alphabet[c]) is None,
                    },
            decreases dfa.alphabet@.len() - k,
        {
            let target = match dfa.step_over(state, dfa.alphabet[k]) {
                Some(next_state) => useful_states.index_of(next_state),
                None => None,
            };
            proof {
                useful_states.lemma_listing();
                match target {
                    Some(p) => {
                        assert(u.contains(u[p as int]));
                    },
                    None => {
                        if d.step(state, d.alphabet[k as int]) is Some {
                            let t = d.step(state, d.alphabet[k as int]).unwrap();
                            assert(!u.contains(t));
                        }
                    },
                }
            }
            row.push(target);
            k = k + 1;
        }
        next.push(row);
        i = i + 1;
    }
    proof {
        assert(rows(next@).len() == u.len());
        assert forall|a: int| 0 <= a < rows(next@).len() implies (#[trigger] rows(next@)[a]).len()
            == d.alphabet.len() by {
            assert(next@[a]@.len() == d.alphabet.len());
        }
        assert forall|a: int, k: int| 0 <= a < u.len() && 0 <= k < d.alphabet.len() implies match #[trigger] rows(
            next@,
        )[a][k] {
            Some(p) => p < u.len() && useful_step(d, u[a], d.alphabet[k]) == Some(u[p as int]),
            None => useful_step(d, u[a], d.alphabet[k]) is None,
        } by {
            assert(rows(next@)[a][k] == next@[a]@[k]);
        }
    }
    next
}

/// For each useful state, whether it is accepting.
fn accepting_flags(dfa: &DFA, useful_states: &StateSet) -> (accepting: Vec<bool>)
    ensures
        dense_accepting(dfa@, useful_states.seq(), accepting@),
{
    let n = useful_states.len();
    let mut accepting: Vec<bool> = Vec::new();
    let mut i: usize = 0;
    while i < n
        invariant
            n == useful_states.seq().len(),
            i <= n,
            accepting@.len() == i,
            forall|a: int| 0 <= a < i ==> #[trigger] accepting@[a] == dfa@.accept.contains(useful_states.seq()[a]),
        decreases n - i,
    {
        let state = useful_states.get(i);
        accepting.push(has_state(&dfa.f, state));
        i = i + 1;
    }
    accepting
}

/// Marks every pair of which exactly one state is accepting.
fn mark_by_acceptance(
    accepting: &Vec<bool>,
    table: &mut PairTable,
    Ghost(d): Ghost<DfaView>,
    Ghost(u): Ghost<Seq<State>>,
)
    requires
        old(table).wf(),
        old(table).size() == u.len(),
        dense_accepting(d, u, accepting@),
        forall|i: int, j: int| 0 <= i < u.len() && 0 <= j < u.len() ==> !old(table).marked(i, j),
    ensures
        final(table).wf(),
        final(table).size() == u.len(),
        marks_sound(d, u, *final(table)),
        marks_split_accepting(accepting@, *final(table)),
{
    let n = accepting.len();
    let mut i: usize = 0;
    while i < n
        invariant
            table.wf(),
            table.size() == u.len(),
            n == u.len(),
            dense_accepting(d, u, accepting@),
            i <= n,
            forall|a: int, b: int|
                0 <= a < n && 0 <= b < n ==> (#[trigger] table.marked(a, b) <==> ((a < i || b < i)
                    && accepting@[a] != accepting@[b])),
        decreases n - i,
    {
        let mut j: usize = i + 1;
        while j < n
            invariant
                table.wf(),
                table.size() == u.len(),
                n == u.len(),
                dense_accepting(d, u, accepting@),
                i < n,
                i < j <= n,
                forall|a: int, b: int|
                    0 <= a < n && 0 <= b < n ==> (#[trigger] table.marked(a, b) <==> ((a < i || b < i || (a == i
                        && b < j) || (b == i && a < j)) && accepting@[a] != accepting@[b])),
            decreases n - j,
        {
            if accepting[i] != accepting[j] {
                table.mark(i, j);
            }
            j = j + 1;
        }
        i = i + 1;
    }
    proof {
        assert forall|a: int, b: int| 0 <= a < u.len() && 0 <= b < u.len() && #[trigger] table.marked(a, b) implies !d.equivalent(
            u[a],
            u[b],
        ) by {
            lemma_acceptance_tells_apart(d, u[a], u[b]);
        }
    }
}

/// One sweep over all unmarked pairs: marks each pair that some symbol tells
/// apart, going by the marks that are there. Says whether any mark was added.
fn refine_marks(
    next: &Vec<Vec<Option<usize>>>,
    table: &mut PairTable,
    Ghost(d): Ghost<DfaView>,
    Ghost(u): Ghost<Seq<State>>,
) -> (changed: bool)
    requires
        old(table).wf(),
        old(table).size() == u.len(),
        lists_useful(d, u),
        dense_steps(d, u, rows(next@)),
        marks_sound(d, u, *old(table)),
    ensures
        final(table).wf(),
        final(table).size() == u.len(),
        marks_sound(d, u, *final(table)),
        forall|i: int, j: int|
            0 <= i < u.len() && 0 <= j < u.len() && old(table).marked(i, j) ==> #[trigger] final(table).marked(i, j),
        final(table).unmarked_count() <= old(table).unmarked_count(),
        changed ==> final(table).unmarked_count() < old(table).unmarked_count(),
        !changed ==> marks_stable(rows(next@), *final(table), d.alphabet.len() as int),
{
    let n = next.len();
    let ghost dense = rows(next@);
    let ghost symbols = d.alphabet.len() as int;
    let mut changed = false;
    let mut i: usize = 0;
    while i < n
        invariant
            table.wf(),
            table.size() == u.len(),
            n == u.len(),
            dense == rows(next@),
            symbols == d.alphabet.len(),
            lists_useful(d, u),
            dense_steps(d, u, dense),
            marks_sound(d, u, *table),
            i <= n,
            forall|a: int, b: int|
                0 <= a < n && 0 <= b < n && old(table).marked(a, b) ==> #[trigger] table.marked(a, b),
            table.unmarked_count() <= old(table).unmarked_count(),
            changed ==> table.unmarked_count() < old(table).unmarked_count(),
            !changed ==> forall|a: int, b: int|
                0 <= a < b < n && a < i && !#[trigger] table.marked(a, b) ==> rows_agree(dense, *table, a, b, symbols),
        decreases n - i,
    {
        let mut j: usize = i + 1;
        while j < n
            invariant
                table.wf(),
                table.size() == u.len(),
                n == u.len(),
                dense == rows(next@),
                symbols == d.alphabet.len(),
                lists_useful(d, u),
                dense_steps(d, u, dense),
                marks_sound(d, u, *table),
                i < n,
                i < j <= n,
                forall|a: int, b: int|
                    0 <= a < n && 0 <= b < n && old(table).marked(a, b) ==> #[trigger] table.marked(a, b),
                table.unmarked_count() <= old(table).unmarked_count(),
                changed ==> table.unmarked_count() < old(table).unmarked_count(),
                !changed ==> forall|a: int, b: int|
                    0 <= a < b < n && (a < i || (a == i && b < j)) && !#[trigger] table.marked(a, b) ==> rows_agree(
                        dense,
                        *table,
                        a,
                        b,
                        symbols,
                    ),
            decreases n - j,
        {
            if !table.is_marked(i, j) {
                let differ = rows_differ(next, table, i, j, Ghost(d), Ghost(u));
                if differ {
                    let ghost before = *table;
                    table.mark(i, j);
                    changed = true;
                    proof {
                        assert forall|a: int, b: int|
                            0 <= a < u.len() && 0 <= b < u.len() && #[trigger] table.marked(a, b) implies !d.equivalent(
                            u[a],
                            u[b],
                        ) by {
                            if !before.marked(a, b) {
                                if d.equivalent(u[j as int], u[i as int]) {
                                    lemma_equivalent_chain(d, u[j as int], u[i as int], u[i as int]);
                                }
                            }
                        }
                    }
                }
            }
            j = j + 1;
        }
        i = i + 1;
    }
    changed
}

/// Whether some symbol tells the `i`-th and the `j`-th useful state apart,
/// going by the marks that are there.
fn rows_differ(
    next: &Vec<Vec<Option<usize>>>,
    table: &PairTable,
    i: usize,
    j: usize,
    Ghost(d): Ghost<DfaView>,
    Ghost(u): Ghost<Seq<State>>,
) -> (differ: bool)
    requires
        table.wf(),
        table.size() == u.len(),
        lists_useful(d, u),
        dense_steps(d, u, rows(next@)),
        marks_sound(d, u, *table),
        i < u.len(),
        j < u.len(),
    ensures
        differ ==> !d.equivalent(u[i as int], u[j as int]),
        !differ ==> rows_agree(rows(next@), *table, i as int, j as int, d.alphabet.len() as int),
{
    let ghost dense = rows(next@);
    assert(dense[i as int] == next@[i as int]@);
    assert(dense[j as int] == next@[j as int]@);
    let symbols = next[i].len();
    let mut k: usize = 0;
    while k < symbols
        invariant
            table.wf(),
            table.size() == u.len(),
            lists_useful(d, u),
            dense == rows(next@),
            dense_steps(d, u, dense),
            marks_sound(d, u, *table),
            i < u.len(),
            j < u.len(),
            dense[i as int] == next@[i as int]@,
            dense[j as int] == next@[j as int]@,
            symbols == d.alphabet.len(),
            k <= symbols,
            rows_agree(dense, *table, i as int, j as int, k as int),
        decreases symbols - k,
    {
        let ghost a = d.alphabet[k as int];
        let ghost s = u[i as int];
        let ghost t = u[j as int];
        assert(u.contains(s) && u.contains(t));
        assert(dense[i as int][k as int] == next@[i as int]@[k as int]);
        assert(dense[j as int][k as int] == next@[j as int]@[k as int]);
        match (next[i][k], next[j][k]) {
            (Some(p), Some(q)) => {
                if table.is_marked(p, q) {
                    proof {
                        lemma_successors_tell_apart(d, s, t, a);
                    }
                    return true;
                }
            },
            (None, None) => {},
            (Some(_), None) => {
                proof {
                    lemma_presence_tells_apart(d, s, t, a);
                }
                return true;
            },
            (None, Some(_)) => {
                proof {
                    lemma_presence_tells_apart(d, t, s, a);
                }
                return true;
            },
        }
        assert(steps_agree(dense[i as int][k as int], dense[j as int][k as int], *table));
        k = k + 1;
    }
    false
}

/// Merges the classes of every pair of useful states that is not marked.
fn merge_unmarked(table: &PairTable, n: usize, Ghost(d): Ghost<DfaView>, Ghost(u): Ghost<Seq<State>>) -> (merged:
    UnionFind)
    requires
        table.wf(),
        table.size() == n,
        u.len() == n,
        forall|i: int, j: int| 0 <= i < n && 0 <= j < n ==> (#[trigger] table.marked(i, j) <==> !d.equivalent(u[i], u[j])),
    ensures
        merged.wf(),
        merged.len() == n,
        forall|i: int, j: int| 0 <= i < n && 0 <= j < n ==> (#[trigger] merged.same(i, j) <==> d.equivalent(u[i], u[j])),
{
    let mut merged = UnionFind::new(n);
    let mut i: usize = 0;
    assert forall|x: int, y: int| 0 <= x < n && 0 <= y < n && #[trigger] merged.same(x, y) implies d.equivalent(
        u[x],
        u[y],
    ) by {
        assert(x == y);
        table.lemma_symmetric(x, x);
    }
    while i < n
        invariant
            table.wf(),
            table.size() == n,
            u.len() == n,
            forall|a: int, b: int|
                0 <= a < n && 0 <= b < n ==> (#[trigger] table.marked(a, b) <==> !d.equivalent(u[a], u[b])),
            merged.wf(),
            merged.len() == n,
            i <= n,
            forall|x: int, y: int| 0 <= x < n && 0 <= y < n && #[trigger] merged.same(x, y) ==> d.equivalent(u[x], u[y]),
            forall|a: int, b: int| 0 <= a < b < n && a < i && !table.marked(a, b) ==> #[trigger] merged.same(a, b),
        decreases n - i,
    {
        let mut j: usize = i + 1;
        while j < n
            invariant
                table.wf(),
                table.size() == n,
                u.len() == n,
                forall|a: int, b: int|
                    0 <= a < n && 0 <= b < n ==> (#[trigger] table.marked(a, b) <==> !d.equivalent(u[a], u[b])),
                merged.wf(),
                merged.len() == n,
                i < n,
                i < j <= n,
                forall|x: int, y: int|
                    0 <= x < n && 0 <= y < n && #[trigger] merged.same(x, y) ==> d.equivalent(u[x], u[y]),
                forall|a: int, b: int|
                    0 <= a < b < n && (a < i || (a == i && b < j)) && !table.marked(a, b) ==> #[trigger] merged.same(
                        a,
                        b,
                    ),
            decreases n - j,
        {
            if !table.is_marked(i, j) {
                let ghost before = merged;
                merged.union(i, j);
                proof {
                    assert(d.equivalent(u[i as int], u[j as int]));
                    assert forall|x: int, y: int| 0 <= x < n && 0 <= y < n && #[trigger] merged.same(x, y) implies d.equivalent(
                        u[x],
                        u[y],
                    ) by {
                        assert(before.joined(i as int, j as int, x, y));
                        if before.same(x, y) {
                        } else if before.same(x, i as int) && before.same(y, j as int) {
                            lemma_equivalent_chain(d, u[x], u[i as int], u[j as int]);
                            lemma_equivalent_chain(d, u[y], u[j as int], u[j as int]);
                            lemma_equivalent_chain(d, u[x], u[j as int], u[y]);
                        } else {
                            lemma_equivalent_chain(d, u[y], u[i as int], u[j as int]);
                            lemma_equivalent_chain(d, u[x], u[j as int], u[j as int]);
                            lemma_equivalent_chain(d, u[i as int], u[j as int], u[x]);
                            lemma_equivalent_chain(d, u[y], u[i as int], u[x]);
                            lemma_equivalent_chain(d, u[y], u[x], u[x]);
                        }
                    }
                    assert forall|a: int, b: int|
                        0 <= a < b < n && (a < i || (a == i && b < j + 1)) && !table.marked(a, b) implies #[trigger] merged.same(
                        a,
                        b,
                    ) by {
                        if a == i && b == j {
                            assert(before.same(a, a) && before.same(b, b));
                            assert(before.joined(i as int, j as int, a, b));
                        } else {
                            assert(before.same(a, b));
                            assert(before.joined(i as int, j as int, a, b));
                        }
                    }
                }
            }
            j = j + 1;
        }
        i = i + 1;
    }
    proof {
        assert forall|a: int, b: int| 0 <= a < n && 0 <= b < n implies (#[trigger] merged.same(a, b) <==> d.equivalent(
            u[a],
            u[b],
        )) by {
            if d.equivalent(u[a], u[b]) {
                if a < b {
                    assert(merged.same(a, b));
                } else if b < a {
                    lemma_equivalent_chain(d, u[a], u[b], u[b]);
                    assert(merged.same(b, a));
                }
            }
        }
    }
    merged
}

/// The first `upto` useful states have been dealt out to classes: `class_of`
/// names the class of each, `roots` the position of the smallest member of
/// each class.
spec fn grouped(
    u: Seq<State>,
    merged: UnionFind,
    class_of: Seq<usize>,
    classes: Seq<Set<State>>,
    roots: Seq<int>,
    upto: int,
) -> bool {
    &&& class_of.len() == upto
    &&& roots.len() == classes.len()
    &&& forall|x: int| 0 <= x < upto ==> #[trigger] class_of[x] < classes.len()
    &&& forall|c: int|
        0 <= c < roots.len() ==> 0 <= #[trigger] roots[c] < upto && merged.root(roots[c]) == roots[c]
            && class_of[roots[c]] == c
    &&& forall|b: int, c: int| 0 <= b < c < roots.len() ==> #[trigger] roots[b] < #[trigger] roots[c]
    &&& forall|x: int| 0 <= x < upto ==> roots[#[trigger] class_of[x] as int] == merged.root(x)
    &&& forall|c: int, s: State|
        0 <= c < classes.len() ==> (#[trigger] classes[c].contains(s) <==> dealt(u, class_of, c, s))
}

/// `s` is one of the useful states dealt out to class `c`.
spec fn dealt(u: Seq<State>, class_of: Seq<usize>, c: int, s: State) -> bool {
    exists|x: int| 0 <= x < class_of.len() && #[trigger] class_of[x] == c && u[x] == s
}

/// Every class has a member, and every member is a useful state.
proof fn lemma_grouped_members(
    d: DfaView,
    u: Seq<State>,
    merged: UnionFind,
    class_of: Seq<usize>,
    classes: Seq<Set<State>>,
    roots: Seq<int>,
)
    requires
        lists_useful(d, u),
        grouped(u, merged, class_of, classes, roots, u.len() as int),
    ensures
        forall|c: int| 0 <= c < classes.len() ==> inhabited(#[trigger] classes[c]),
        forall|c: int, s: State| 0 <= c < classes.len() && #[trigger] classes[c].contains(s) ==> d.useful(s),
        forall|s: State| d.useful(s) ==> #[trigger] classified(classes, s),
{
    assert forall|c: int| 0 <= c < classes.len() implies inhabited(#[trigger] classes[c]) by {
        assert(class_of[roots[c]] == c);
        assert(dealt(u, class_of, c, u[roots[c]]));
        assert(classes[c].contains(u[roots[c]]));
    }
    assert forall|c: int, s: State| 0 <= c < classes.len() && #[trigger] classes[c].contains(s) implies d.useful(
        s,
    ) by {
        assert(dealt(u, class_of, c, s));
        let x = choose|x: int| 0 <= x < class_of.len() && #[trigger] class_of[x] == c && u[x] == s;
        assert(u.contains(u[x]));
    }
    assert forall|s: State| d.useful(s) implies #[trigger] classified(classes, s) by {
        assert(u.contains(s));
        let x = choose|x: int| 0 <= x < u.len() && u[x] == s;
        let c = class_of[x] as int;
        assert(dealt(u, class_of, c, s));
        assert(classes[c].contains(s));
    }
}

/// Two useful states are in one class exactly if they are equivalent.
proof fn lemma_grouped_classes(
    d: DfaView,
    u: Seq<State>,
    merged: UnionFind,
    class_of: Seq<usize>,
    classes: Seq<Set<State>>,
    roots: Seq<int>,
    c1: int,
    c2: int,
    s: State,
    t: State,
)
    requires
        merged.len() == u.len(),
        forall|i: int, j: int|
            0 <= i < u.len() && 0 <= j < u.len() ==> (#[trigger] merged.same(i, j) <==> d.equivalent(u[i], u[j])),
        grouped(u, merged, class_of, classes, roots, u.len() as int),
        0 <= c1 < classes.len(),
        0 <= c2 < classes.len(),
        classes[c1].contains(s),
        classes[c2].contains(t),
    ensures
        c1 == c2 <==> d.equivalent(s, t),
{
    assert(dealt(u, class_of, c1, s));
    assert(dealt(u, class_of, c2, t));
    let x = choose|x: int| 0 <= x < class_of.len() && #[trigger] class_of[x] == c1 && u[x] == s;
    let y = choose|y: int| 0 <= y < class_of.len() && #[trigger] class_of[y] == c2 && u[y] == t;
    assert(roots[class_of[x] as int] == merged.root(x));
    assert(roots[class_of[y] as int] == merged.root(y));
    assert(merged.same(x, y) <==> d.equivalent(u[x], u[y]));
    if c1 < c2 {
        assert(roots[c1] < roots[c2]);
    }
    if c2 < c1 {
        assert(roots[c2] < roots[c1]);
    }
}

/// An earlier class has a member smaller than any member of a later class.
proof fn lemma_grouped_order(
    d: DfaView,
    u: Seq<State>,
    merged: UnionFind,
    class_of: Seq<usize>,
    classes: Seq<Set<State>>,
    roots: Seq<int>,
    c1: int,
    c2: int,
    t: State,
)
    requires
        lists_useful(d, u),
        merged.wf(),
        merged.len() == u.len(),
        grouped(u, merged, class_of, classes, roots, u.len() as int),
        0 <= c1 < c2 < classes.len(),
        classes[c2].contains(t),
    ensures
        u[roots[c1]] < t,
        classes[c1].contains(u[roots[c1]]),
{
    assert(dealt(u, class_of, c2, t));
    let y = choose|y: int| 0 <= y < class_of.len() && #[trigger] class_of[y] == c2 && u[y] == t;
    assert(roots[class_of[y] as int] == merged.root(y));
    merged.lemma_root(y);
    assert(roots[c1] < roots[c2]);
    let r = u[roots[c1]];
    assert(class_of[roots[c1]] == c1);
    assert(dealt(u, class_of, c1, r));
}

/// Once every useful state is dealt out, the classes are the partition by equivalence.
proof fn lemma_grouped_is_partition(
    d: DfaView,
    u: Seq<State>,
    merged: UnionFind,
    class_of: Seq<usize>,
    classes: Seq<Set<State>>,
    roots: Seq<int>,
)
    requires
        lists_useful(d, u),
        merged.wf(),
        merged.len() == u.len(),
        forall|i: int, j: int|
            0 <= i < u.len() && 0 <= j < u.len() ==> (#[trigger] merged.same(i, j) <==> d.equivalent(u[i], u[j])),
        grouped(u, merged, class_of, classes, roots, u.len() as int),
    ensures
        is_partition(d, classes),
{
    lemma_grouped_members(d, u, merged, class_of, classes, roots);
    assert forall|c1: int, c2: int, s: State, t: State|
        0 <= c1 < classes.len() && 0 <= c2 < classes.len() && #[trigger] classes[c1].contains(s)
            && #[trigger] classes[c2].contains(t) implies (c1 == c2 <==> d.equivalent(s, t)) by {
        lemma_grouped_classes(d, u, merged, class_of, classes, roots, c1, c2, s, t);
    }
    assert forall|c1: int, c2: int, t: State|
        #![trigger classes[c2].contains(t), classes[c1]]
        0 <= c1 < c2 < classes.len() && classes[c2].contains(t) implies starts_before(classes[c1], t) by {
        lemma_grouped_order(d, u, merged, class_of, classes, roots, c1, c2, t);
    }
}

/// Gathers the useful states into their classes, in the order of the
/// smallest member of each class.
fn collect_classes(merged: UnionFind, useful_states: &StateSet, Ghost(d): Ghost<DfaView>) -> (classes: Vec<StateSet>)
    requires
        lists_useful(d, useful_states.seq()),
        merged.wf(),
        merged.len() == useful_states.seq().len(),
        forall|i: int, j: int|
            0 <= i < merged.len() && 0 <= j < merged.len() ==> (#[trigger] merged.same(i, j) <==> d.equivalent(
                useful_states.seq()[i],
                useful_states.seq()[j],
            )),
    ensures
        is_partition(d, set_views(classes@)),
{
    let ghost u = useful_states.seq();
    let ghost start = merged;
    let mut merged = merged;
    let n = useful_states.len();
    let mut classes: Vec<StateSet> = Vec::new();
    let mut class_of: Vec<usize> = Vec::new();
    let ghost mut roots: Seq<int> = Seq::empty();
    let mut i: usize = 0;
    while i < n
        invariant
            u == useful_states.seq(),
            n == u.len(),
            i <= n,
            start.wf(),
            start.len() == n,
            merged.wf(),
            merged.len() == n,
            forall|x: int| 0 <= x < n ==> merged.root(x) == start.root(x),
            grouped(u, start, class_of@, set_views(classes@), roots, i as int),
        decreases n - i,
    {
        let state = useful_states.get(i);
        let root = merged.find(i);
        let ghost sets = set_views(classes@);
        let ghost owner = class_of@;
        proof {
            start.lemma_root(i as int);
        }
        if root == i {
            let mut class = StateSet::new();
            class.insert(state);
            class_of.push(classes.len());
            classes.push(class);
            proof {
                let c = sets.len() as int;
                roots = roots.push(i as int);
                let grown = set_views(classes@);
                assert forall|b: int, s: State| 0 <= b < grown.len() implies (#[trigger] grown[b].contains(s)
                    <==> dealt(u, class_of@, b, s)) by {
                    if b < c {
                        assert(grown[b] == sets[b]);
                        if dealt(u, owner, b, s) {
                            let x = choose|x: int| 0 <= x < owner.len() && #[trigger] owner[x] == b && u[x] == s;
                            assert(class_of@[x] == b);
                        }
                        if dealt(u, class_of@, b, s) {
                            let x = choose|x: int| 0 <= x < class_of@.len() && #[trigger] class_of@[x] == b && u[x] == s;
                            assert(owner[x] == b);
                        }
                    } else {
                        assert(class_of@[i as int] == c);
                        if dealt(u, class_of@, b, s) {
                            let x = choose|x: int| 0 <= x < class_of@.len() && #[trigger] class_of@[x] == b && u[x] == s;
                            if x < i {
                                assert(owner[x] < c);
                            }
                        }
                    }
                }
                assert forall|x: int| 0 <= x < i + 1 implies roots[#[trigger] class_of@[x] as int] == start.root(
                    x,
                ) by {
                    if x < i {
                        assert(owner[x] == class_of@[x]);
                    }
                }
            }
        } else {
            let c = class_of[root];
            assert(roots[owner[root as int] as int] == start.root(root as int));
            let ghost members = classes@[c as int]@;
            classes[c].insert(state);
            class_of.push(c);
            proof {
                let grown = set_views(classes@);
                assert forall|b: int, s: State| 0 <= b < grown.len() implies (#[trigger] grown[b].contains(s)
                    <==> dealt(u, class_of@, b, s)) by {
                    if b != c {
                        assert(grown[b] == sets[b]);
                    } else {
                        assert(sets[b] == members);
                        assert(class_of@[i as int] == c);
                    }
                    if dealt(u, owner, b, s) {
                        let x = choose|x: int| 0 <= x < owner.len() && #[trigger] owner[x] == b && u[x] == s;
                        assert(class_of@[x] == b);
                    }
                    if dealt(u, class_of@, b, s) {
                        let x = choose|x: int| 0 <= x < class_of@.len() && #[trigger] class_of@[x] == b && u[x] == s;
                        if x < i {
                            assert(owner[x] == b);
                        }
                    }
                }
                assert forall|x: int| 0 <= x < i + 1 implies roots[#[trigger] class_of@[x] as int] == start.root(
                    x,
                ) by {
                    if x < i {
                        assert(owner[x] == class_of@[x]);
                    }
                }
                assert forall|b: int|
                    0 <= b < roots.len() implies 0 <= #[trigger] roots[b] < i + 1 && start.root(roots[b]) == roots[b]
                    && class_of@[roots[b]] == b by {
                    assert(owner[roots[b]] == b);
                }
            }
        }
        i = i + 1;
    }
    proof {
        lemma_grouped_is_partition(d, u, start, class_of@, set_views(classes@), roots);
    }
    classes
}

/// Build the minimized DFA from the equivalence classes of the useful states.
///
/// Class `i` becomes state `i`. Its transitions are those of one member of
/// the class, with each destination replaced by its class; a transition that
/// leads to a state outside every class is left out.
pub fn build_minimized_dfa(dfa: &DFA, equivalence_classes: &Vec<StateSet>) -> (minimal: DFA)
    requires
        dfa.wf(),
        dfa@.useful(dfa@.start),
        is_partition(dfa@, set_views(equivalence_classes@)),
    ensures
        is_quotient(dfa@, minimal@, class_map(dfa@, set_views(equivalence_classes@))),
        is_minimization(dfa@, minimal@),
        minimal.wf(),
        dfa_keys_sorted(minimal.alphabet@, minimal.trxn@),
        dfa_keys_unique(minimal.trxn@),
{
    broadcast use group_hash_axioms;

    let ghost d = dfa@;
    let ghost classes = set_views(equivalence_classes@);
    proof {
        lemma_class_count(d, classes);
        lemma_class_of_useful(d, classes, d.start);
    }
    // Map each state to its equivalence class representative.
    let state_to_class = class_lookup(equivalence_classes, Ghost(d));
    // Build new transitions.
    let new_transitions = class_transitions(dfa, equivalence_classes, &state_to_class);
    // Find new start and accept states.
    let new_start = match state_to_class.get(&dfa.q0) {
        Some(class) => *class,
        None => unreached(),
    };
    let new_accept = accepting_classes(dfa, equivalence_classes);
    let new_states = StateSet::first(equivalence_classes.len()).to_hash_set();
    let minimal = DFA {
        q: new_states,
        alphabet: copy_symbols(&dfa.alphabet),
        trxn: new_transitions,
        q0: new_start,
        f: new_accept,
    };
    proof {
        let reps = first_members(equivalence_classes@);
        let m = minimal@;
        assert forall|c: State, a: Symbol|
            #[trigger] m.step(c, a) == if c < classes.len() {
                match useful_step(d, reps[c as int], a) {
                    Some(t) => Some(class_index(classes, t) as State),
                    None => None,
                }
            } else {
                None
            } by {
            assert(m.step(c, a) == dfa_lookup(minimal.trxn@, c, a));
        }
        lemma_classes_give_quotient(d, classes, reps, m);
        lemma_minimization_wf(d, m);
        lemma_sorted_keys_unique(d.alphabet, minimal.trxn@);
    }
    minimal
}

/// Map each state to the number of its equivalence class.
fn class_lookup(equivalence_classes: &Vec<StateSet>, Ghost(d): Ghost<DfaView>) -> (state_to_class: HashMap<
    State,
    State,
>)
    requires
        is_partition(d, set_views(equivalence_classes@)),
    ensures
        state_to_class@ == class_map(d, set_views(equivalence_classes@)),
{
    broadcast use group_hash_axioms;

    let ghost classes = set_views(equivalence_classes@);
    proof {
        lemma_class_count(d, classes);
    }
    let mut state_to_class: HashMap<State, State> = HashMap::new();
    let mut i: usize = 0;
    while i < equivalence_classes.len()
        invariant
            classes == set_views(equivalence_classes@),
            classes.len() <= 0x1_0000_0000,
            is_partition(d, classes),
            i <= classes.len(),
            forall|s: State| #[trigger]
                state_to_class@.contains_key(s) <==> (d.useful(s) && 0 <= class_index(classes, s) < i),
            forall|s: State| #[trigger]
                state_to_class@.contains_key(s) ==> state_to_class@[s] == class_index(classes, s),
        decreases classes.len() - i,
    {
        let class = &equivalence_classes[i];
        assert(class@ == classes[i as int]);
        let representative = i as State;
        let mut j: usize = 0;
        while j < class.len()
            invariant
                classes == set_views(equivalence_classes@),
                classes.len() <= 0x1_0000_0000,
                is_partition(d, classes),
                i < classes.len(),
                class@ == classes[i as int],
                representative == i,
                j <= class.seq().len(),
                forall|s: State| #[trigger]
                    state_to_class@.contains_key(s) <==> (d.useful(s) && (0 <= class_index(classes, s) < i || (
                    class_index(classes, s) == i && exists|x: int| 0 <= x < j && class.seq()[x] == s))),
                forall|s: State| #[trigger]
                    state_to_class@.contains_key(s) ==> state_to_class@[s] == class_index(classes, s),
            decreases class.seq().len() - j,
        {
            let state = class.get(j);
            proof {
                lemma_class_index(d, classes, i as int, state);
            }
            state_to_class.insert(state, representative);
            j = j + 1;
        }
        proof {
            use_type_invariant(class);
            class.lemma_seq();
            class.lemma_listing();
            assert forall|s: State| #[trigger]
                state_to_class@.contains_key(s) <==> (d.useful(s) && 0 <= class_index(classes, s) < i + 1) by {
                if d.useful(s) && class_index(classes, s) == i {
                    lemma_class_of_useful(d, classes, s);
                    assert(class.seq().contains(s));
                }
            }
        }
        i = i + 1;
    }
    proof {
        assert forall|s: State| d.useful(s) implies 0 <= class_index(classes, s) < classes.len() by {
            lemma_class_of_useful(d, classes, s);
        }
        assert(state_to_class@ =~= class_map(d, classes));
    }
    state_to_class
}

/// The first member of each class.
spec fn first_members(classes: Seq<StateSet>) -> Seq<State> {
    Seq::new(classes.len(), |c: int| classes[c].seq()[0])
}

/// What the transition records of a quotient give for class `c` and symbol
/// `a`, going by the member `reps[c]`.
spec fn class_step(d: DfaView, classes: Seq<Set<State>>, reps: Seq<State>, c: State, a: Symbol) -> Option<State> {
    match useful_step(d, reps[c as int], a) {
        Some(t) => Some(class_index(classes, t) as State),
        None => None,
    }
}

/// The transitions of the quotient: those of the first member of each class,
/// with each destination replaced by the number of its class.
fn class_transitions(
    dfa: &DFA,
    equivalence_classes: &Vec<StateSet>,
    state_to_class: &HashMap<State, State>,
) -> (new_transitions: Vec<(State, Symbol, State)>)
    requires
        dfa.wf(),
        is_partition(dfa@, set_views(equivalence_classes@)),
        state_to_class@ == class_map(dfa@, set_views(equivalence_classes@)),
    ensures
        dfa_keys_sorted(dfa@.alphabet, new_transitions@),
        forall|c: int|
            0 <= c < equivalence_classes@.len() ==> set_views(equivalence_classes@)[c].contains(
                #[trigger] first_members(equivalence_classes@)[c],
            ),
        forall|c: State, a: Symbol| #[trigger]
            dfa_lookup(new_transitions@, c, a) == if c < equivalence_classes@.len() {
                class_step(dfa@, set_views(equivalence_classes@), first_members(equivalence_classes@), c, a)
            } else {
                None
            },
{
    broadcast use group_hash_axioms;

    let ghost d = dfa@;
    let ghost classes = set_views(equivalence_classes@);
    let ghost reps = first_members(equivalence_classes@);
    proof {
        lemma_class_count(d, classes);
    }
    let mut new_transitions: Vec<(State, Symbol, State)> = Vec::new();
    proof {
        lemma_sorted_keys_empty(d.alphabet, new_transitions@);
    }
    let mut i: usize = 0;
    while i < equivalence_classes.len()
        invariant
            d == dfa@,
            d.wf(),
            classes == set_views(equivalence_classes@),
            reps == first_members(equivalence_classes@),
            classes.len() <= 0x1_0000_0000,
            is_partition(d, classes),
            state_to_class@ == class_map(d, classes),
            i <= classes.len(),
            dfa_keys_sorted(d.alphabet, new_transitions@),
            dfa_keys_upto(d.alphabet, new_transitions@, i as int, 0),
            forall|c: int| 0 <= c < i ==> classes[c].contains(#[trigger] reps[c]),
            forall|c: State, a: Symbol| #[trigger]
                dfa_lookup(new_transitions@, c, a) == if c < i {
                    class_step(d, classes, reps, c, a)
                } else {
                    None
                },
        decreases classes.len() - i,
    {
        let class = &equivalence_classes[i];
        let representative = i as State;
        proof {
            use_type_invariant(class);
            class.lemma_seq();
            assert(class@ == classes[i as int]);
            assert(inhabited(classes[i as int]));
        }
        let any_state = class.get(0);
        assert(any_state == reps[i as int]);
        let mut k: usize = 0;
        while k < dfa.alphabet.len()
            invariant
                d == dfa@,
                d.wf(),
                classes == set_views(equivalence_classes@),
                reps == first_members(equivalence_classes@),
                is_partition(d, classes),
                state_to_class@ == class_map(d, classes),
                i < classes.len(),
                representative == i,
                any_state == reps[i as int],
                k <= dfa.alphabet@.len(),
                dfa_keys_sorted(d.alphabet, new_transitions@),
                dfa_keys_upto(d.alphabet, new_transitions@, i as int, k as int),
                forall|c: State, a: Symbol| #[trigger]
                    dfa_lookup(new_transitions@, c, a) == if c < i || (c == i && symbol_before(d.alphabet, k as int, a)) {
                        class_step(d, classes, reps, c, a)
                    } else {
                        None
                    },
            decreases dfa.alphabet@.len() - k,
        {
            let symbol = dfa.alphabet[k];
            let ghost before = new_transitions@;
            let mut added = false;
            match dfa.step_over(any_state, symbol) {
                Some(next_state) => {
                    match state_to_class.get(&next_state) {
                        Some(next_class) => {
                            new_transitions.push((representative, symbol, *next_class));
                            added = true;
                        },
                        None => {},
                    }
                },
                None => {},
            }
            proof {
                assert forall|c: State, a: Symbol| #[trigger]
                    dfa_lookup(new_transitions@, c, a) == if c < i || (c == i && symbol_before(d.alphabet, k + 1, a)) {
                        class_step(d, classes, reps, c, a)
                    } else {
                        None
                    } by {
                    if added {
                        lemma_dfa_lookup_push(before, new_transitions@.last(), c, a);
                        assert(new_transitions@ =~= before.push(new_transitions@.last()));
                    }
                    if c == i && a == symbol {
                        assert(0 <= k < k + 1 && d.alphabet[k as int] == a);
                    }
                    if symbol_before(d.alphabet, k as int, a) {
                        let j = choose|j: int| 0 <= j < k && d.alphabet[j] == a;
                        assert(0 <= j < k + 1 && d.alphabet[j] == a);
                        assert(a != symbol);
                    }
                    if c == i && a != symbol && symbol_before(d.alphabet, k + 1, a) {
                        let j = choose|j: int| 0 <= j < k + 1 && d.alphabet[j] == a;
                        assert(0 <= j < k && d.alphabet[j] == a);
                    }
                }
                if added {
                    assert(new_transitions@ =~= before.push(new_transitions@.last()));
                    lemma_sorted_keys_push(d.alphabet, before, new_transitions@.last(), k as int);
                } else {
                    lemma_sorted_keys_later(d.alphabet, before, i as int, k as int, i as int, k + 1);
                }
            }
            k = k + 1;
        }
        proof {
            lemma_sorted_keys_later(d.alphabet, new_transitions@, i as int, k as int, i + 1, 0);
            assert forall|c: State, a: Symbol| #[trigger]
                dfa_lookup(new_transitions@, c, a) == if c < i + 1 {
                    class_step(d, classes, reps, c, a)
                } else {
                    None
                } by {
                if c == i && !symbol_before(d.alphabet, k as int, a) {
                    if d.delta.dom().contains((reps[i as int], a)) {
                        let j = choose|j: int| 0 <= j < d.alphabet.len() && d.alphabet[j] == a;
                        assert(0 <= j < k && d.alphabet[j] == a);
                    }
                }
            }
        }
        i = i + 1;
    }
    new_transitions
}

/// The numbers of the classes that hold an accepting state.
fn accepting_classes(dfa: &DFA, equivalence_classes: &Vec<StateSet>) -> (new_accept: HashSet<State>)
    requires
        is_partition(dfa@, set_views(equivalence_classes@)),
    ensures
        new_accept@.finite(),
        forall|c: State|
            new_accept@.contains(c) <==> c < equivalence_classes@.len() && exists|s: State|
                #[trigger] set_views(equivalence_classes@)[c as int].contains(s) && dfa@.accept.contains(s),
{
    let ghost d = dfa@;
    let ghost classes = set_views(equivalence_classes@);
    proof {
        lemma_class_count(d, classes);
    }
    let mut new_accept: HashSet<State> = HashSet::new();
    let mut i: usize = 0;
    while i < equivalence_classes.len()
        invariant
            d == dfa@,
            classes == set_views(equivalence_classes@),
            classes.len() <= 0x1_0000_0000,
            i <= classes.len(),
            new_accept@.finite(),
            forall|c: State|
                new_accept@.contains(c) <==> c < i && exists|s: State|
                    #[trigger] classes[c as int].contains(s) && d.accept.contains(s),
        decreases classes.len() - i,
    {
        let class = &equivalence_classes[i];
        assert(class@ == classes[i as int]);
        let mut found = false;
        let mut j: usize = 0;
        while j < class.len() && !found
            invariant
                d == dfa@,
                i < classes.len(),
                class@ == classes[i as int],
                j <= class.seq().len(),
                found ==> exists|s: State| #[trigger] classes[i as int].contains(s) && d.accept.contains(s),
                !found ==> forall|x: int| 0 <= x < j ==> !d.accept.contains(#[trigger] class.seq()[x]),
            decreases class.seq().len() - j,
        {
            let state = class.get(j);
            if has_state(&dfa.f, state) {
                found = true;
                assert(classes[i as int].contains(state) && d.accept.contains(state));
            }
            j = j + 1;
        }
        proof {
            class.lemma_listing();
            if !found {
                assert forall|s: State| #[trigger] classes[i as int].contains(s) implies !d.accept.contains(s) by {
                    assert(class.seq().contains(s));
                }
            }
        }
        if found {
            add_state(&mut new_accept, i as State);
        }
        i = i + 1;
    }
    new_accept
}

/// Create a minimal rejecting DFA: a single start state that accepts nothing
/// and loops to itself on every symbol.
pub fn create_minimal_rejecting_dfa(dfa: &DFA) -> (rejecting: DFA)
    ensures
        rejecting@ == rejecting_dfa(dfa@.alphabet),
        rejecting.trxn@ == Seq::new(dfa@.alphabet.len(), |k: int| (0u32, dfa@.alphabet[k], 0u32)),
        dfa_keys_sorted(dfa@.alphabet, rejecting.trxn@),
        dfa@.alphabet.no_duplicates() ==> dfa_keys_unique(rejecting.trxn@),
{
    let mut transitions: Vec<(State, Symbol, State)> = Vec::new();
    let mut alphabet: Vec<Symbol> = Vec::new();
    let mut k: usize = 0;
    while k < dfa.alphabet.len()
        invariant
            k <= dfa.alphabet@.len(),
            alphabet@ == dfa.alphabet@.take(k as int),
            transitions@.len() == k,
            forall|j: int| 0 <= j < k ==> #[trigger] transitions@[j] == (0u32, dfa.alphabet@[j], 0u32),
            forall|s: State, a: Symbol| #[trigger]
                dfa_lookup(transitions@, s, a) == if s == 0 && alphabet@.contains(a) {
                    Some(0u32)
                } else {
                    None
                },
        decreases dfa.alphabet@.len() - k,
    {
        let symbol = dfa.alphabet[k];
        proof {
            let grown = alphabet@.push(symbol);
            assert(grown =~= dfa.alphabet@.take(k + 1));
            assert forall|s: State, a: Symbol| #[trigger]
                dfa_lookup(transitions@.push((0u32, symbol, 0u32)), s, a) == if s == 0 && grown.contains(a) {
                    Some(0u32)
                } else {
                    None
                } by {
                lemma_dfa_lookup_push(transitions@, (0u32, symbol, 0u32), s, a);
                if alphabet@.contains(a) {
                    let i = choose|i: int| 0 <= i < alphabet@.len() && alphabet@[i] == a;
                    assert(grown[i] == a);
                }
                if a == symbol {
                    assert(grown[k as int] == a);
                }
                if grown.contains(a) && a != symbol {
                    let i = choose|i: int| 0 <= i < grown.len() && grown[i] == a;
                    assert(alphabet@[i] == a);
                }
            }
        }
        transitions.push((0, symbol, 0));
        alphabet.push(symbol);
        k = k + 1;
    }
    let rejecting = DFA {
        q: StateSet::first(1).to_hash_set(),
        alphabet,
        trxn: transitions,
        q0: 0,
        f: HashSet::new(),
    };
    proof {
        assert(alphabet@ =~= dfa.alphabet@);
        assert(rejecting@.states =~= rejecting_dfa(dfa@.alphabet).states);
        assert(rejecting@.delta =~= rejecting_dfa(dfa@.alphabet).delta);
        assert(rejecting.trxn@ =~= Seq::new(dfa@.alphabet.len(), |k: int| (0u32, dfa@.alphabet[k], 0u32)));
        reveal(dfa_keys_sorted);
        assert forall|x: int, y: int| 0 <= x < y < rejecting.trxn@.len() implies record_before(
            dfa@.alphabet,
            #[trigger] rejecting.trxn@[x],
            #[trigger] rejecting.trxn@[y],
        ) by {
            assert(0 <= x < y < dfa@.alphabet.len() && dfa@.alphabet[x] == rejecting.trxn@[x].1 && dfa@.alphabet[y]
                == rejecting.trxn@[y].1);
        }
        if dfa@.alphabet.no_duplicates() {
            lemma_sorted_keys_unique(dfa@.alphabet, rejecting.trxn@);
        }
    }
    rejecting
}

} // verus!
