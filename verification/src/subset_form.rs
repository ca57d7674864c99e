//! What it means for a DFA to be the subset construction of an NFA, and what
//! follows from it.

use crate::dfa::DfaView;
use crate::minimal_form::{is_minimization, lemma_minimization_preserves_language};
use crate::nfa::NfaView;
use crate::state_set::{inhabited, meets, State, Symbol};
use vstd::arithmetic::power2::{lemma2_to64, lemma_pow2_strictly_increases, lemma_pow2_unfold, pow2};
use vstd::prelude::*;
use vstd::relations::injective_on;
use vstd::set_lib::{lemma_len_subset, lemma_map_size, lemma_set_disjoint_lens};

verus! {

/// `s` is a non-empty set of states that the automaton can be in after reading some word.
pub open spec fn reachable_subset(n: NfaView, s: Set<State>) -> bool {
    inhabited(s) && exists|w: Seq<Symbol>| #[trigger] n.run(n.start_set(), w) == s
}

/// Every set of the family is a reachable subset.
pub open spec fn all_reachable(n: NfaView, family: Seq<Set<State>>) -> bool {
    forall|i: int| 0 <= i < family.len() ==> reachable_subset(n, #[trigger] family[i])
}

/// The reachable subsets of the automaton can be numbered by state
/// identifiers: there are at most 2^32 of them.
#[verifier::opaque]
pub open spec fn subsets_fit(n: NfaView) -> bool {
    forall|family: Seq<Set<State>>|
        #[trigger] family.no_duplicates() && all_reachable(n, family) ==> family.len() <= 0x1_0000_0000
}

/// `r` is what the construction records for subset `c` and symbol `a`: the
/// number of the closure of the move, or nothing where the move is empty.
pub open spec fn subset_edge(n: NfaView, labels: Seq<Set<State>>, c: State, a: Symbol, r: Option<State>) -> bool {
    let moved = n.step_over(labels[c as int], a);
    match r {
        Some(j) => inhabited(moved) && j < labels.len() && labels[j as int] == n.epsilon_closure(moved),
        None => !inhabited(moved),
    }
}

/// State `j` is the destination of a transition that leaves a state with a
/// smaller number than `j`, and that comes before the `k`-th symbol of state
/// `c` when the transitions are gone through state by state and, for each
/// state, in the order of the alphabet.
pub open spec fn found_before(d: DfaView, c: int, k: int, j: State) -> bool {
    exists|c0: State, k0: int|
        0 <= k0 < d.alphabet.len() && (c0 < c || (c0 == c && k0 < k)) && c0 < j && #[trigger] d.step(
            c0,
            d.alphabet[k0],
        ) == Some(j)
}

/// `d` is the subset construction of `n`, state `c` of `d` standing for the
/// set `labels[c]` of states of `n`.
///
/// The states are numbered from 0 in the order in which a breadth-first
/// search from the start subset, taking the symbols in the order of the
/// alphabet, comes upon them. A subset with an empty move on a symbol has no
/// transition on it.
pub open spec fn is_subset_construction(n: NfaView, d: DfaView, labels: Seq<Set<State>>) -> bool {
    &&& 0 < labels.len() <= 0x1_0000_0000
    &&& labels[0] == n.start_set()
    &&& labels.no_duplicates()
    &&& forall|c: State| #[trigger] d.states.contains(c) <==> c < labels.len()
    &&& d.alphabet == n.alphabet
    &&& d.start == 0
    &&& forall|c: State| #[trigger] d.accept.contains(c) <==> c < labels.len() && meets(labels[c as int], n.accept)
    &&& forall|c: State, a: Symbol| c < labels.len() ==> subset_edge(n, labels, c, a, #[trigger] d.step(c, a))
    &&& forall|c: State, a: Symbol| #[trigger] d.delta.dom().contains((c, a)) ==> c < labels.len()
    &&& forall|j: State| 0 < j < labels.len() ==> #[trigger] found_before(d, labels.len() as int, 0, j)
    &&& forall|c: State, k: int, j: State|
        #![trigger found_before(d, c as int, k, j)]
        0 <= k < d.alphabet.len() && d.step(c, d.alphabet[k]) is Some && 0 < j < d.step(
            c,
            d.alphabet[k],
        ).unwrap() ==> found_before(d, c as int, k, j)
}

/// `d` is the subset construction of `n`.
pub open spec fn converts_to(n: NfaView, d: DfaView) -> bool {
    exists|labels: Seq<Set<State>>| is_subset_construction(n, d, labels)
}

/// A set without a member is the empty set.
pub proof fn lemma_uninhabited(s: Set<State>)
    requires
        !inhabited(s),
    ensures
        s == Set::<State>::empty(),
{
    assert(s =~= Set::<State>::empty());
}

/// A run of the construction follows the sets that the NFA runs through, and
/// breaks off exactly where the NFA is left with no state.
pub proof fn lemma_subset_run(n: NfaView, d: DfaView, labels: Seq<Set<State>>, c: State, w: Seq<Symbol>)
    requires
        is_subset_construction(n, d, labels),
        c < labels.len(),
    ensures
        match d.run(c, w) {
            Some(j) => j < labels.len() && labels[j as int] == n.run(labels[c as int], w),
            None => n.run(labels[c as int], w) == Set::<State>::empty(),
        },
    decreases w.len(),
{
    if w.len() > 0 {
        let a = w[0];
        assert(subset_edge(n, labels, c, a, d.step(c, a)));
        match d.step(c, a) {
            Some(j) => {
                lemma_subset_run(n, d, labels, j, w.drop_first());
            },
            None => {
                lemma_uninhabited(n.step_over(labels[c as int], a));
                n.lemma_empty(a);
                n.lemma_run_empty(w.drop_first());
            },
        }
    }
}

/// The subset construction accepts exactly the words that the NFA accepts.
pub proof fn lemma_subset_construction_preserves_language(n: NfaView, d: DfaView)
    requires
        converts_to(n, d),
    ensures
        forall|w: Seq<Symbol>| d.accepts(w) == n.accepts(w),
{
    let labels = choose|labels: Seq<Set<State>>| is_subset_construction(n, d, labels);
    assert forall|w: Seq<Symbol>| d.accepts(w) == n.accepts(w) by {
        lemma_subset_run(n, d, labels, 0, w);
        match d.run(0, w) {
            Some(j) => {
                if d.accept.contains(j) {
                    let s = choose|s: State| labels[j as int].contains(s) && n.accept.contains(s);
                    assert(n.run(n.start_set(), w).contains(s) && n.accept.contains(s));
                }
                if n.accepts(w) {
                    let s = choose|s: State| #[trigger] n.run(n.start_set(), w).contains(s) && n.accept.contains(s);
                    assert(labels[j as int].contains(s) && n.accept.contains(s));
                }
            },
            None => {},
        }
    }
}

/// Every reachable subset is the label of a state of the construction.
pub proof fn lemma_subset_complete(n: NfaView, d: DfaView, labels: Seq<Set<State>>, s: Set<State>)
    requires
        is_subset_construction(n, d, labels),
        reachable_subset(n, s),
    ensures
        labels.contains(s),
{
    let w = choose|w: Seq<Symbol>| #[trigger] n.run(n.start_set(), w) == s;
    lemma_subset_run(n, d, labels, 0, w);
    match d.run(0, w) {
        Some(j) => {
            assert(labels[j as int] == s);
        },
        None => {
            let x = choose|x: State| s.contains(x);
            assert(s.contains(x));
        },
    }
}

/// An automaton that has a subset construction has reachable subsets that fit.
pub proof fn lemma_converted_fits(n: NfaView, d: DfaView)
    requires
        converts_to(n, d),
    ensures
        subsets_fit(n),
{
    reveal(subsets_fit);
    let labels = choose|labels: Seq<Set<State>>| is_subset_construction(n, d, labels);
    assert forall|family: Seq<Set<State>>| #[trigger] family.no_duplicates() && all_reachable(
        n,
        family,
    ) implies family.len() <= 0x1_0000_0000 by {
        assert forall|s: Set<State>| family.to_set().contains(s) implies labels.to_set().contains(s) by {
            let i = choose|i: int| 0 <= i < family.len() && family[i] == s;
            assert(reachable_subset(n, family[i]));
            lemma_subset_complete(n, d, labels, s);
        }
        family.unique_seq_to_set();
        labels.unique_seq_to_set();
        lemma_len_subset(family.to_set(), labels.to_set());
    }
}

/// The word that leads to a reachable subset, prolonged by one symbol, leads
/// to the closure of the move on that symbol.
pub proof fn lemma_reachable_next(n: NfaView, s: Set<State>, a: Symbol)
    requires
        reachable_subset(n, s),
        inhabited(n.step_over(s, a)),
    ensures
        reachable_subset(n, n.epsilon_closure(n.step_over(s, a))),
{
    let w = choose|w: Seq<Symbol>| #[trigger] n.run(n.start_set(), w) == s;
    n.lemma_run_snoc(n.start_set(), w, a);
    let moved = n.step_over(s, a);
    let next = n.epsilon_closure(moved);
    assert(n.run(n.start_set(), w.push(a)) == next);
    n.lemma_closure_extensive(moved);
    let x = choose|x: State| moved.contains(x);
    assert(next.contains(x));
}

/// The start subset is a reachable subset.
pub proof fn lemma_reachable_start(n: NfaView)
    ensures
        reachable_subset(n, n.start_set()),
{
    n.lemma_closure_extensive(set![n.start]);
    assert(set![n.start].contains(n.start));
    assert(n.start_set().contains(n.start));
    assert(n.run(n.start_set(), Seq::<Symbol>::empty()) == n.start_set());
}

/// Whatever the automaton can be in after reading a word is a set of its states.
pub proof fn lemma_run_in_states(n: NfaView, from: Set<State>, w: Seq<Symbol>)
    requires
        n.wf(),
        from.subset_of(n.states),
    ensures
        n.run(from, w).subset_of(n.states),
    decreases w.len(),
{
    if w.len() > 0 {
        let moved = n.step_over(from, w[0]);
        n.lemma_stays_in_states(from, w[0]);
        n.lemma_stays_in_states(moved, w[0]);
        lemma_run_in_states(n, n.epsilon_closure(moved), w.drop_first());
    }
}

/// A finite set with `k` elements has at most `2^k` subsets.
pub proof fn lemma_subset_count(family: Set<Set<State>>, q: Set<State>)
    requires
        family.finite(),
        q.finite(),
        forall|s: Set<State>| family.contains(s) ==> s.subset_of(q),
    ensures
        family.len() <= pow2(q.len()),
    decreases q.len(),
{
    if q.len() == 0 {
        let nothing = Set::<State>::empty();
        assert forall|s: Set<State>| family.contains(s) implies s == nothing by {
            assert(s.subset_of(q));
            assert(s =~= nothing);
        }
        assert(family.subset_of(set![nothing]));
        lemma_len_subset(family, set![nothing]);
        lemma2_to64();
    } else {
        let x = q.choose();
        let rest = q.remove(x);
        let with = family.filter(|s: Set<State>| s.contains(x));
        let without = family.filter(|s: Set<State>| !s.contains(x));
        family.lemma_len_filter(|s: Set<State>| s.contains(x));
        family.lemma_len_filter(|s: Set<State>| !s.contains(x));
        assert(with.disjoint(without));
        assert(with + without =~= family);
        lemma_set_disjoint_lens(with, without);
        let drop = |s: Set<State>| s.remove(x);
        let dropped = with.map(drop);
        assert(injective_on(drop, with)) by {
            assert forall|s1: Set<State>, s2: Set<State>|
                with.contains(s1) && with.contains(s2) && #[trigger] drop(s1) == #[trigger] drop(s2) implies s1
                == s2 by {
                assert(s1 =~= s1.remove(x).insert(x));
                assert(s2 =~= s2.remove(x).insert(x));
            }
        }
        lemma_map_size(with, dropped, drop);
        assert forall|s: Set<State>| dropped.contains(s) implies s.subset_of(rest) by {
            let t = choose|t: Set<State>| with.contains(t) && s == drop(t);
            assert(t.subset_of(q));
        }
        assert forall|s: Set<State>| without.contains(s) implies s.subset_of(rest) by {
            assert(s.subset_of(q));
        }
        lemma_subset_count(dropped, rest);
        lemma_subset_count(without, rest);
        lemma_pow2_unfold(q.len());
    }
}

/// An automaton with at most 32 states has reachable subsets that fit.
pub proof fn lemma_few_states_fit(n: NfaView)
    requires
        n.wf(),
        n.states.len() <= 32,
    ensures
        subsets_fit(n),
{
    reveal(subsets_fit);
    assert forall|family: Seq<Set<State>>| #[trigger] family.no_duplicates() && all_reachable(
        n,
        family,
    ) implies family.len() <= 0x1_0000_0000 by {
        let sets = family.to_set();
        family.unique_seq_to_set();
        assert forall|s: Set<State>| sets.contains(s) implies s.subset_of(n.states) by {
            let i = choose|i: int| 0 <= i < family.len() && family[i] == s;
            assert(reachable_subset(n, family[i]));
            let w = choose|w: Seq<Symbol>| #[trigger] n.run(n.start_set(), w) == s;
            n.lemma_stays_in_states(set![n.start], n.alphabet[0]);
            assert(n.start_set().subset_of(n.states));
            lemma_run_in_states(n, n.start_set(), w);
        }
        lemma_subset_count(sets, n.states);
        if n.states.len() < 32 {
            lemma_pow2_strictly_increases(n.states.len(), 32);
        }
        lemma2_to64();
    }
}

/// An NFA, its subset construction and the minimal form of that
/// construction accept the same words.
pub proof fn lemma_conversion_preserves_language(n: NfaView, d: DfaView, m: DfaView)
    requires
        converts_to(n, d),
        is_minimization(d, m),
    ensures
        forall|w: Seq<Symbol>| d.accepts(w) == n.accepts(w) && m.accepts(w) == n.accepts(w),
{
    lemma_subset_construction_preserves_language(n, d);
    lemma_minimization_preserves_language(d, m);
}

/// The two lists of labels have the same entries at all positions below `j`
/// that either of them has.
spec fn agree_below(l1: Seq<Set<State>>, l2: Seq<Set<State>>, j: int) -> bool {
    forall|x: int| 0 <= x < j ==> #[trigger] agree_at(l1, l2, x)
}

/// The two lists of labels have the same entry at position `x`, or neither has one.
spec fn agree_at(l1: Seq<Set<State>>, l2: Seq<Set<State>>, x: int) -> bool {
    (x < l1.len() <==> x < l2.len()) && (x < l1.len() ==> l1[x] == l2[x])
}

/// Where two constructions of one automaton agree on all states before `j`,
/// and the first has a transition from such a state into `j`, the second
/// has state `j` too, with the same label.
proof fn lemma_target_agrees(
    n: NfaView,
    d1: DfaView,
    l1: Seq<Set<State>>,
    d2: DfaView,
    l2: Seq<Set<State>>,
    j: State,
    c0: State,
    k0: int,
)
    requires
        is_subset_construction(n, d1, l1),
        is_subset_construction(n, d2, l2),
        agree_below(l1, l2, j as int),
        0 < j < l1.len(),
        c0 < j,
        0 <= k0 < n.alphabet.len(),
        d1.step(c0, n.alphabet[k0]) == Some(j),
    ensures
        j < l2.len(),
        l2[j as int] == l1[j as int],
    decreases c0, k0,
{
    let a = n.alphabet[k0];
    assert(agree_at(l1, l2, c0 as int));
    assert(subset_edge(n, l1, c0, a, d1.step(c0, a)));
    assert(subset_edge(n, l2, c0, a, d2.step(c0, a)));
    let j2 = d2.step(c0, a).unwrap();
    if j2 < j {
        assert(agree_at(l1, l2, j2 as int));
        assert(l1[j2 as int] == l1[j as int]);
    } else if j2 > j {
        assert(found_before(d2, c0 as int, k0, j));
        let (c1, k1) = choose|c1: State, k1: int|
            0 <= k1 < d2.alphabet.len() && (c1 < c0 || (c1 == c0 && k1 < k0)) && c1 < j && #[trigger] d2.step(
                c1,
                d2.alphabet[k1],
            ) == Some(j);
        let b = n.alphabet[k1];
        assert(agree_at(l1, l2, c1 as int));
        assert(subset_edge(n, l2, c1, b, d2.step(c1, b)));
        assert(subset_edge(n, l1, c1, b, d1.step(c1, b)));
        let j1 = d1.step(c1, b).unwrap();
        if j1 < j {
            assert(agree_at(l1, l2, j1 as int));
            assert(l2[j1 as int] == l2[j as int]);
        } else if j1 > j {
            assert(found_before(d1, c1 as int, k1, j));
            let (c2, k2) = choose|c2: State, k2: int|
                0 <= k2 < d1.alphabet.len() && (c2 < c1 || (c2 == c1 && k2 < k1)) && c2 < j && #[trigger] d1.step(
                    c2,
                    d1.alphabet[k2],
                ) == Some(j);
            lemma_target_agrees(n, d1, l1, d2, l2, j, c2, k2);
        }
    }
}

/// Two constructions of one automaton have the same labels at every position.
proof fn lemma_labels_agree(
    n: NfaView,
    d1: DfaView,
    l1: Seq<Set<State>>,
    d2: DfaView,
    l2: Seq<Set<State>>,
    j: int,
)
    requires
        is_subset_construction(n, d1, l1),
        is_subset_construction(n, d2, l2),
        0 <= j,
    ensures
        agree_below(l1, l2, j),
        agree_below(l2, l1, j),
    decreases j,
{
    if j > 0 {
        lemma_labels_agree(n, d1, l1, d2, l2, j - 1);
        let x = j - 1;
        if x > 0 {
            if x < l1.len() {
                assert(found_before(d1, l1.len() as int, 0, x as State));
                let (c0, k0) = choose|c0: State, k0: int|
                    0 <= k0 < d1.alphabet.len() && (c0 < l1.len() || (c0 == l1.len() && k0 < 0)) && c0 < x
                        && #[trigger] d1.step(c0, d1.alphabet[k0]) == Some(x as State);
                lemma_target_agrees(n, d1, l1, d2, l2, x as State, c0, k0);
            }
            if x < l2.len() {
                assert(found_before(d2, l2.len() as int, 0, x as State));
                let (c0, k0) = choose|c0: State, k0: int|
                    0 <= k0 < d2.alphabet.len() && (c0 < l2.len() || (c0 == l2.len() && k0 < 0)) && c0 < x
                        && #[trigger] d2.step(c0, d2.alphabet[k0]) == Some(x as State);
                lemma_target_agrees(n, d2, l2, d1, l1, x as State, c0, k0);
            }
        }
        assert(agree_at(l1, l2, x));
        assert(agree_at(l2, l1, x));
        assert forall|y: int| 0 <= y < j implies #[trigger] agree_at(l1, l2, y) by {}
        assert forall|y: int| 0 <= y < j implies #[trigger] agree_at(l2, l1, y) by {}
    }
}

/// In two constructions with the same labels, the same transitions are recorded.
proof fn lemma_same_edges(
    n: NfaView,
    d1: DfaView,
    d2: DfaView,
    labels: Seq<Set<State>>,
    c: State,
    a: Symbol,
)
    requires
        is_subset_construction(n, d1, labels),
        is_subset_construction(n, d2, labels),
    ensures
        d1.step(c, a) == d2.step(c, a),
{
    if c < labels.len() {
        assert(subset_edge(n, labels, c, a, d1.step(c, a)));
        assert(subset_edge(n, labels, c, a, d2.step(c, a)));
        if d1.step(c, a) is Some {
            let j1 = d1.step(c, a).unwrap();
            let j2 = d2.step(c, a).unwrap();
            assert(labels[j1 as int] == labels[j2 as int]);
        }
    } else {
        assert(!d1.delta.dom().contains((c, a)));
        assert(!d2.delta.dom().contains((c, a)));
    }
}

/// An automaton has one subset construction only.
pub proof fn lemma_conversion_unique(n: NfaView, d1: DfaView, d2: DfaView)
    requires
        converts_to(n, d1),
        converts_to(n, d2),
    ensures
        d1 == d2,
{
    let l1 = choose|labels: Seq<Set<State>>| is_subset_construction(n, d1, labels);
    let l2 = choose|labels: Seq<Set<State>>| is_subset_construction(n, d2, labels);
    let j = l1.len() + l2.len() + 1;
    lemma_labels_agree(n, d1, l1, d2, l2, j as int);
    assert(l1.len() == l2.len()) by {
        assert(agree_at(l1, l2, l1.len() as int));
        assert(agree_at(l1, l2, l2.len() as int));
    }
    assert(l1 =~= l2) by {
        assert forall|x: int| 0 <= x < l1.len() implies l1[x] == l2[x] by {
            assert(agree_at(l1, l2, x));
        }
    }
    assert(d1.states =~= d2.states);
    assert(d1.accept =~= d2.accept);
    assert(d1.delta =~= d2.delta) by {
        assert forall|k: (State, Symbol)| d1.delta.dom().contains(k) <==> d2.delta.dom().contains(k) by {
            lemma_same_edges(n, d1, d2, l1, k.0, k.1);
        }
        assert forall|k: (State, Symbol)| d1.delta.dom().contains(k) implies d1.delta[k] == d2.delta[k] by {
            lemma_same_edges(n, d1, d2, l1, k.0, k.1);
        }
    }
}

} // verus!
