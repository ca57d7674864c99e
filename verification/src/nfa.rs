//! Nondeterministic finite automata with epsilon transitions, and the two
//! reachability primitives on them: epsilon-closure and the move on one symbol.

pub use crate::state_set::{State, Symbol};
use crate::state_set::{lemma_hash_set_finite, listed_before, StateSet};
use std::collections::HashSet;
use vstd::prelude::*;
use vstd::set_lib::lemma_len_subset;

verus! {

/// The mathematical content of an NFA: `(Q, Σ, δ, q0, F)`, where `δ` sends a
/// state and a symbol, or a state and no symbol (an epsilon transition), to a
/// set of states.
pub struct NfaView {
    pub states: Set<State>,
    pub alphabet: Seq<Symbol>,
    pub delta: Map<(State, Option<Symbol>), Set<State>>,
    pub start: State,
    pub accept: Set<State>,
}

impl NfaView {
    /// `δ(s, a)`; the empty set where the automaton has no such transition.
    pub open spec fn targets(self, s: State, a: Option<Symbol>) -> Set<State> {
        if self.delta.dom().contains((s, a)) {
            self.delta[(s, a)]
        } else {
            Set::empty()
        }
    }

    /// The referential invariants of an automaton: the start state, the
    /// accepting states and both ends of every transition are states, every
    /// transition that reads a symbol reads one of the alphabet, no
    /// transition has an empty set of destinations, and the alphabet is a
    /// non-empty list without repetition.
    pub open spec fn wf(self) -> bool {
        &&& self.states.finite()
        &&& self.alphabet.len() > 0
        &&& self.alphabet.no_duplicates()
        &&& self.states.contains(self.start)
        &&& self.accept.subset_of(self.states)
        &&& forall|s: State, a: Option<Symbol>| #[trigger]
            self.delta.dom().contains((s, a)) ==> {
                &&& self.states.contains(s)
                &&& (a is Some ==> self.alphabet.contains(a.unwrap()))
                &&& self.delta[(s, a)].subset_of(self.states)
                &&& self.delta[(s, a)] != Set::<State>::empty()
            }
    }

    /// `p` is a non-empty chain of states, each linked to the next by an epsilon transition.
    pub open spec fn epsilon_path(self, p: Seq<State>) -> bool {
        &&& p.len() > 0
        &&& forall|i: int| 0 <= i < p.len() - 1 ==> self.targets(#[trigger] p[i], None).contains(p[i + 1])
    }

    /// `t` can be reached from a state of `from` by zero or more epsilon transitions.
    pub open spec fn epsilon_reaches(self, from: Set<State>, t: State) -> bool {
        exists|p: Seq<State>| #[trigger] self.epsilon_path(p) && from.contains(p[0]) && p.last() == t
    }

    /// The set of all states reachable from `from` by zero or more epsilon transitions.
    pub open spec fn epsilon_closure(self, from: Set<State>) -> Set<State> {
        Set::new(|t: State| self.epsilon_reaches(from, t))
    }

    /// The union, over the states of `from`, of their destinations on `a`. No closure is taken.
    pub open spec fn step_over(self, from: Set<State>, a: Symbol) -> Set<State> {
        Set::new(|t: State| exists|s: State| from.contains(s) && #[trigger] self.targets(s, Some(a)).contains(t))
    }

    /// The set of states the automaton can be in after reading `w` from the set `from`.
    pub open spec fn run(self, from: Set<State>, w: Seq<Symbol>) -> Set<State>
        decreases w.len(),
    {
        if w.len() == 0 {
            from
        } else {
            self.run(self.epsilon_closure(self.step_over(from, w[0])), w.drop_first())
        }
    }

    /// Whether reading `w` from the set `from` can end in an accepting state.
    pub open spec fn accepts_from(self, from: Set<State>, w: Seq<Symbol>) -> bool {
        exists|s: State| #[trigger] self.run(from, w).contains(s) && self.accept.contains(s)
    }

    /// The set of states the automaton is in before it reads anything.
    pub open spec fn start_set(self) -> Set<State> {
        self.epsilon_closure(set![self.start])
    }

    /// Whether the automaton accepts `w`.
    pub open spec fn accepts(self, w: Seq<Symbol>) -> bool {
        self.accepts_from(self.start_set(), w)
    }

    /// Every epsilon transition out of `x` ends in `seen`.
    pub open spec fn epsilon_expanded(self, x: State, seen: Set<State>) -> bool {
        forall|t: State| #[trigger] self.targets(x, None).contains(t) ==> seen.contains(t)
    }

    /// The closure contains the set it is taken of.
    pub proof fn lemma_closure_extensive(self, from: Set<State>)
        ensures
            from.subset_of(self.epsilon_closure(from)),
    {
        assert forall|s: State| from.contains(s) implies self.epsilon_closure(from).contains(s) by {
            let p = seq![s];
            assert(self.epsilon_path(p) && from.contains(p[0]) && p.last() == s);
        }
    }

    /// The closure follows every epsilon transition out of its members.
    pub proof fn lemma_closure_step(self, from: Set<State>, s: State, t: State)
        requires
            self.epsilon_closure(from).contains(s),
            self.targets(s, None).contains(t),
        ensures
            self.epsilon_closure(from).contains(t),
    {
        let p = choose|p: Seq<State>| #[trigger] self.epsilon_path(p) && from.contains(p[0]) && p.last() == s;
        let q = p.push(t);
        assert forall|i: int| 0 <= i < q.len() - 1 implies self.targets(#[trigger] q[i], None).contains(
            q[i + 1],
        ) by {
            if i < p.len() - 1 {
                assert(q[i] == p[i]);
                assert(q[i + 1] == p[i + 1]);
            }
        }
        assert(self.epsilon_path(q) && from.contains(q[0]) && q.last() == t);
    }

    /// The closure is the least set that contains `from` and follows every
    /// epsilon transition out of its members.
    pub proof fn lemma_closure_least(self, from: Set<State>, seen: Set<State>)
        requires
            from.subset_of(seen),
            forall|x: State| seen.contains(x) ==> #[trigger] self.epsilon_expanded(x, seen),
        ensures
            self.epsilon_closure(from).subset_of(seen),
    {
        assert forall|t: State| self.epsilon_closure(from).contains(t) implies seen.contains(t) by {
            let p = choose|p: Seq<State>| #[trigger] self.epsilon_path(p) && from.contains(p[0]) && p.last() == t;
            self.lemma_path_stays(seen, p, p.len() - 1);
        }
    }

    proof fn lemma_path_stays(self, seen: Set<State>, p: Seq<State>, i: int)
        requires
            self.epsilon_path(p),
            seen.contains(p[0]),
            forall|x: State| seen.contains(x) ==> #[trigger] self.epsilon_expanded(x, seen),
            0 <= i < p.len(),
        ensures
            seen.contains(p[i]),
        decreases i,
    {
        if i > 0 {
            self.lemma_path_stays(seen, p, i - 1);
            assert(self.epsilon_expanded(p[i - 1], seen));
            assert(self.targets(p[i - 1], None).contains(p[i - 1 + 1]));
        }
    }

    /// Taking the closure is a fixed point: the closure of a closure is that
    /// closure, and the closure of a set contains the set.
    pub proof fn lemma_closure_fixed_point(self, from: Set<State>)
        ensures
            self.epsilon_closure(self.epsilon_closure(from)) == self.epsilon_closure(from),
            from.subset_of(self.epsilon_closure(from)),
    {
        let once = self.epsilon_closure(from);
        self.lemma_closure_extensive(from);
        self.lemma_closure_extensive(once);
        assert forall|x: State| once.contains(x) implies #[trigger] self.epsilon_expanded(x, once) by {
            assert forall|t: State| #[trigger] self.targets(x, None).contains(t) implies once.contains(t) by {
                self.lemma_closure_step(from, x, t);
            }
        }
        self.lemma_closure_least(once, once);
        assert(self.epsilon_closure(once) =~= once);
    }

    /// The closure of the empty set is empty, and so is the move from it.
    pub proof fn lemma_empty(self, a: Symbol)
        ensures
            self.epsilon_closure(Set::empty()) == Set::<State>::empty(),
            self.step_over(Set::empty(), a) == Set::<State>::empty(),
    {
        assert(self.epsilon_closure(Set::empty()) =~= Set::<State>::empty());
        assert(self.step_over(Set::empty(), a) =~= Set::<State>::empty());
    }

    /// In a well-formed automaton, closures and moves stay among the states.
    pub proof fn lemma_stays_in_states(self, from: Set<State>, a: Symbol)
        requires
            self.wf(),
        ensures
            self.step_over(from, a).subset_of(self.states),
            self.epsilon_closure(from).subset_of(from.union(self.states)),
            !self.alphabet.contains(a) ==> self.step_over(from, a) == Set::<State>::empty(),
    {
        assert forall|t: State| self.step_over(from, a).contains(t) implies self.states.contains(t)
            && self.alphabet.contains(a) by {
            let s = choose|s: State| from.contains(s) && #[trigger] self.targets(s, Some(a)).contains(t);
            assert(self.delta.dom().contains((s, Some(a))));
        }
        let bound = from.union(self.states);
        assert forall|x: State| bound.contains(x) implies #[trigger] self.epsilon_expanded(x, bound) by {
            assert forall|t: State| #[trigger] self.targets(x, None).contains(t) implies bound.contains(t) by {
                assert(self.delta.dom().contains((x, None)));
            }
        }
        self.lemma_closure_least(from, bound);
        if !self.alphabet.contains(a) {
            assert(self.step_over(from, a) =~= Set::<State>::empty());
        }
    }

    /// Reading `w` and then `a` is moving on `a` from where `w` led, and closing.
    pub proof fn lemma_run_snoc(self, from: Set<State>, w: Seq<Symbol>, a: Symbol)
        ensures
            self.run(from, w.push(a)) == self.epsilon_closure(self.step_over(self.run(from, w), a)),
        decreases w.len(),
    {
        let wa = w.push(a);
        if w.len() == 0 {
            assert(wa[0] == a);
            assert(wa.drop_first().len() == 0);
            let next = self.epsilon_closure(self.step_over(from, a));
            assert(self.run(next, wa.drop_first()) == next);
        } else {
            assert(wa[0] == w[0]);
            assert(wa.drop_first() =~= w.drop_first().push(a));
            self.lemma_run_snoc(self.epsilon_closure(self.step_over(from, w[0])), w.drop_first(), a);
        }
    }

    /// Nothing is accepted from the empty set.
    pub proof fn lemma_run_empty(self, w: Seq<Symbol>)
        ensures
            self.run(Set::empty(), w) == Set::<State>::empty(),
            !self.accepts_from(Set::empty(), w),
        decreases w.len(),
    {
        if w.len() > 0 {
            self.lemma_empty(w[0]);
            self.lemma_run_empty(w.drop_first());
        }
    }
}

/// The position of the record that a list of transition records gives for
/// `(s, a)`: the last one for this pair, as if the records had been entered
/// into a table one after the other.
pub open spec fn nfa_find(t: Seq<(State, Option<Symbol>, HashSet<State>)>, s: State, a: Option<Symbol>) -> Option<int>
    decreases t.len(),
{
    if t.len() == 0 {
        None
    } else if t.last().0 == s && t.last().1 == a {
        Some(t.len() - 1)
    } else {
        nfa_find(t.drop_last(), s, a)
    }
}

/// The transition function that a list of transition records stands for.
pub open spec fn nfa_delta(t: Seq<(State, Option<Symbol>, HashSet<State>)>) -> Map<(State, Option<Symbol>), Set<State>> {
    Map::new(
        |k: (State, Option<Symbol>)| nfa_find(t, k.0, k.1) is Some,
        |k: (State, Option<Symbol>)| t[nfa_find(t, k.0, k.1).unwrap()].2@,
    )
}

/// A found record is one of the list and is a record for the pair asked for.
pub proof fn lemma_nfa_find(t: Seq<(State, Option<Symbol>, HashSet<State>)>, s: State, a: Option<Symbol>)
    ensures
        match nfa_find(t, s, a) {
            Some(i) => 0 <= i < t.len() && t[i].0 == s && t[i].1 == a,
            None => forall|i: int| 0 <= i < t.len() ==> !(#[trigger] t[i].0 == s && t[i].1 == a),
        },
    decreases t.len(),
{
    if t.len() > 0 && !(t.last().0 == s && t.last().1 == a) {
        lemma_nfa_find(t.drop_last(), s, a);
        match nfa_find(t, s, a) {
            Some(i) => {
                assert(t.drop_last()[i] == t[i]);
            },
            None => {
                assert forall|i: int| 0 <= i < t.len() implies !(#[trigger] t[i].0 == s && t[i].1 == a) by {
                    if i < t.len() - 1 {
                        assert(t.drop_last()[i] == t[i]);
                    }
                }
            },
        }
    }
}

/// All the states that the records of a list lead to.
pub open spec fn nfa_range(t: Seq<(State, Option<Symbol>, HashSet<State>)>) -> Set<State>
    decreases t.len(),
{
    if t.len() == 0 {
        Set::empty()
    } else {
        nfa_range(t.drop_last()).union(t.last().2@)
    }
}

/// The records of a list lead to finitely many states, and every transition
/// of the function they stand for leads to some of them.
pub proof fn lemma_nfa_range(t: Seq<(State, Option<Symbol>, HashSet<State>)>)
    ensures
        nfa_range(t).finite(),
        forall|i: int| 0 <= i < t.len() ==> (#[trigger] t[i]).2@.subset_of(nfa_range(t)),
    decreases t.len(),
{
    if t.len() > 0 {
        lemma_nfa_range(t.drop_last());
        lemma_hash_set_finite(&t.last().2);
        assert forall|i: int| 0 <= i < t.len() implies (#[trigger] t[i]).2@.subset_of(nfa_range(t)) by {
            if i < t.len() - 1 {
                assert(t.drop_last()[i] == t[i]);
            }
        }
    }
}

/// A nondeterministic finite automaton.
///
/// `trxn` lists the transitions as `(from, symbol, destinations)` records;
/// a record without a symbol is an epsilon transition.
#[derive(Debug, PartialEq, Eq)]
pub struct NFA {
    /// The states `Q`.
    pub q: HashSet<State>,
    /// The alphabet `Σ`.
    pub alphabet: Vec<Symbol>,
    /// The transition function `δ`.
    pub trxn: Vec<(State, Option<Symbol>, HashSet<State>)>,
    /// The start state `q0`.
    pub q0: State,
    /// The accepting states `F`.
    pub f: HashSet<State>,
}

impl View for NFA {
    type V = NfaView;

    open spec fn view(&self) -> NfaView {
        NfaView {
            states: self.q@,
            alphabet: self.alphabet@,
            delta: nfa_delta(self.trxn@),
            start: self.q0,
            accept: self.f@,
        }
    }
}

/// Whether two optional symbols are the same.
fn same_symbol(a: Option<Symbol>, b: Option<Symbol>) -> (same: bool)
    ensures
        same == (a == b),
{
    match (a, b) {
        (None, None) => true,
        (Some(x), Some(y)) => x == y,
        _ => false,
    }
}

impl NFA {
    /// The automaton satisfies the referential invariants.
    pub open spec fn wf(&self) -> bool {
        self@.wf()
    }

    /// The destinations of the transition from `state` on `symbol`, if there is one.
    fn destinations(&self, state: State, symbol: Option<Symbol>) -> (found: Option<&HashSet<State>>)
        ensures
            match found {
                Some(set) => self@.delta.dom().contains((state, symbol)) && set@ == self@.delta[(state, symbol)],
                None => !self@.delta.dom().contains((state, symbol)),
            },
            self@.targets(state, symbol) == match found {
                Some(set) => set@,
                None => Set::<State>::empty(),
            },
    {
        let mut i: usize = self.trxn.len();
        assert(self.trxn@.subrange(0, i as int) =~= self.trxn@);
        while i > 0
            invariant
                i <= self.trxn@.len(),
                nfa_find(self.trxn@, state, symbol) == nfa_find(self.trxn@.subrange(0, i as int), state, symbol),
            decreases i,
        {
            i = i - 1;
            let ghost prefix = self.trxn@.subrange(0, i + 1);
            assert(prefix.last() == self.trxn@[i as int]);
            assert(prefix.drop_last() =~= self.trxn@.subrange(0, i as int));
            if self.trxn[i].0 == state && same_symbol(self.trxn[i].1, symbol) {
                return Some(&self.trxn[i].2);
            }
        }
        assert(self.trxn@.subrange(0, 0).len() == 0);
        None
    }

    /// epsilon-closure of states is the set of all states reachable from any
    /// of the given states by following zero or more epsilon transitions.
    pub fn epsilon_closure(&self, states: &HashSet<State>) -> (closure: HashSet<State>)
        ensures
            closure@ == self@.epsilon_closure(states@),
            states@.subset_of(closure@),
    {
        self.closure_of(&StateSet::from_hash_set(states)).to_hash_set()
    }

    /// Takes in a set of states and a symbol, and returns the set of states
    /// reachable by a single transition on that symbol.
    pub fn step_over(&self, states: &HashSet<State>, symbol: Symbol) -> (result: HashSet<State>)
        ensures
            result@ == self@.step_over(states@, symbol),
    {
        self.move_on(&StateSet::from_hash_set(states), symbol).to_hash_set()
    }

    /// The epsilon-closure of a set of states, on sets in canonical form.
    pub fn closure_of(&self, states: &StateSet) -> (closure: StateSet)
        ensures
            closure@ == self@.epsilon_closure(states@),
            states@.subset_of(closure@),
    {
        let ghost n = self@;
        let ghost from = states@;
        let ghost bound = from.union(nfa_range(self.trxn@));
        let mut closure = states.clone();
        let mut stack: Vec<State> = states.to_vec();
        proof {
            states.lemma_finite();
            lemma_nfa_range(self.trxn@);
            states.lemma_listing();
            n.lemma_closure_extensive(from);
            lemma_len_subset(closure@, bound);
            assert forall|x: State| closure@.contains(x) implies stack@.contains(x) || #[trigger] n.epsilon_expanded(
                x,
                closure@,
            ) by {}
        }
        while stack.len() > 0
            invariant
                n == self@,
                from == states@,
                bound == from.union(nfa_range(self.trxn@)),
                bound.finite(),
                from.subset_of(closure@),
                closure@.subset_of(n.epsilon_closure(from)),
                closure@.subset_of(bound),
                forall|i: int| 0 <= i < stack@.len() ==> closure@.contains(#[trigger] stack@[i]),
                forall|x: State|
                    closure@.contains(x) ==> stack@.contains(x) || #[trigger] n.epsilon_expanded(x, closure@),
                closure@.len() <= bound.len(),
            decreases bound.len() - closure@.len() + stack@.len(),
        {
            let ghost before = stack@;
            let state = stack.pop().unwrap();
            proof {
                assert(before[before.len() - 1] == state);
                assert forall|x: State| closure@.contains(x) implies stack@.contains(x) || x == state
                    || #[trigger] n.epsilon_expanded(x, closure@) by {
                    if before.contains(x) && x != state {
                        let i = choose|i: int| 0 <= i < before.len() && before[i] == x;
                        assert(stack@[i] == x);
                    }
                }
            }
            let ghost budget = bound.len() - closure@.len() + stack@.len();
            match self.destinations(state, None) {
                Some(found) => {
                    let next_states = StateSet::from_hash_set(found);
                    proof {
                        lemma_nfa_find(self.trxn@, state, None);
                        lemma_nfa_range(self.trxn@);
                        let at = nfa_find(self.trxn@, state, None).unwrap();
                        assert(self.trxn@[at].2@.subset_of(nfa_range(self.trxn@)));
                    }
                    let mut j: usize = 0;
                    while j < next_states.len()
                        invariant
                            n == self@,
                            from == states@,
                            bound == from.union(nfa_range(self.trxn@)),
                            bound.finite(),
                            next_states@ == n.targets(state, None),
                            next_states@.subset_of(nfa_range(self.trxn@)),
                            j <= next_states.seq().len(),
                            closure@.contains(state),
                            from.subset_of(closure@),
                            closure@.subset_of(n.epsilon_closure(from)),
                            closure@.subset_of(bound),
                            forall|i: int| 0 <= i < stack@.len() ==> closure@.contains(#[trigger] stack@[i]),
                            forall|x: State|
                                closure@.contains(x) ==> stack@.contains(x) || x == state
                                    || #[trigger] n.epsilon_expanded(x, closure@),
                            forall|i: int| 0 <= i < j ==> closure@.contains(#[trigger] next_states.seq()[i]),
                            closure@.len() <= bound.len(),
                            bound.len() - closure@.len() + stack@.len() == budget,
                        decreases next_states.seq().len() - j,
                    {
                        let next = next_states.get(j);
                        let ghost seen = closure@;
                        let ghost waiting = stack@;
                        proof {
                            closure.lemma_finite();
                        }
                        if closure.insert(next) {
                            stack.push(next);
                            proof {
                                assert(stack@[waiting.len() as int] == next);
                            }
                        }
                        proof {
                            n.lemma_closure_step(from, state, next);
                            lemma_len_subset(closure@, bound);
                            assert forall|x: State| closure@.contains(x) implies stack@.contains(x) || x == state
                                || #[trigger] n.epsilon_expanded(x, closure@) by {
                                if seen.contains(x) {
                                    if waiting.contains(x) {
                                        let i = choose|i: int| 0 <= i < waiting.len() && waiting[i] == x;
                                        assert(stack@[i] == x);
                                    } else if x != state {
                                        assert(n.epsilon_expanded(x, seen));
                                    }
                                }
                            }
                        }
                        j = j + 1;
                    }
                    proof {
                        next_states.lemma_listing();
                        assert(n.epsilon_expanded(state, closure@)) by {
                            assert forall|t: State| #[trigger] n.targets(state, None).contains(
                                t,
                            ) implies closure@.contains(t) by {
                                assert(next_states.seq().contains(t));
                            }
                        }
                    }
                },
                None => {
                    assert(n.epsilon_expanded(state, closure@));
                },
            }
        }
        proof {
            assert forall|x: State| closure@.contains(x) implies #[trigger] n.epsilon_expanded(x, closure@) by {
                if stack@.contains(x) {
                }
            }
            n.lemma_closure_least(from, closure@);
            assert(closure@ =~= n.epsilon_closure(from));
        }
        closure
    }

    /// The move from a set of states on a symbol, on sets in canonical form.
    pub fn move_on(&self, states: &StateSet, symbol: Symbol) -> (result: StateSet)
        ensures
            result@ == self@.step_over(states@, symbol),
    {
        let ghost n = self@;
        let mut result = StateSet::new();
        let mut i: usize = 0;
        while i < states.len()
            invariant
                n == self@,
                i <= states.seq().len(),
                forall|t: State|
                    result@.contains(t) <==> exists|x: int|
                        0 <= x < i && #[trigger] n.targets(states.seq()[x], Some(symbol)).contains(t),
            decreases states.seq().len() - i,
        {
            let state = states.get(i);
            let ghost done = result@;
            match self.destinations(state, Some(symbol)) {
                Some(found) => {
                    let next_states = StateSet::from_hash_set(found);
                    let mut j: usize = 0;
                    while j < next_states.len()
                        invariant
                            n == self@,
                            i < states.seq().len(),
                            state == states.seq()[i as int],
                            next_states@ == n.targets(state, Some(symbol)),
                            j <= next_states.seq().len(),
                            forall|t: State| #[trigger]
                                result@.contains(t) <==> done.contains(t) || listed_before(
                                    next_states.seq(),
                                    j as int,
                                    t,
                                ),
                        decreases next_states.seq().len() - j,
                    {
                        let next = next_states.get(j);
                        let ghost so_far = result@;
                        result.insert(next);
                        proof {
                            let listing = next_states.seq();
                            assert forall|t: State| #[trigger]
                                result@.contains(t) <==> done.contains(t) || listed_before(listing, j + 1, t) by {
                                if listed_before(listing, j as int, t) {
                                    let y = choose|y: int| 0 <= y < j && listing[y] == t;
                                    assert(0 <= y < j + 1 && listing[y] == t);
                                }
                                if t == next {
                                    assert(0 <= j < j + 1 && listing[j as int] == t);
                                }
                                if listed_before(listing, j + 1, t) {
                                    let y = choose|y: int| 0 <= y < j + 1 && listing[y] == t;
                                    if y < j {
                                        assert(listed_before(listing, j as int, t));
                                    }
                                }
                            }
                        }
                        j = j + 1;
                    }
                    proof {
                        next_states.lemma_listing();
                        assert forall|t: State|
                            result@.contains(t) <==> exists|x: int|
                                0 <= x < i + 1 && #[trigger] n.targets(states.seq()[x], Some(symbol)).contains(
                                    t,
                                ) by {
                            if done.contains(t) {
                                let x = choose|x: int|
                                    0 <= x < i && #[trigger] n.targets(states.seq()[x], Some(symbol)).contains(t);
                                assert(0 <= x < i + 1 && n.targets(states.seq()[x], Some(symbol)).contains(t));
                            }
                            if n.targets(state, Some(symbol)).contains(t) {
                                assert(next_states.seq().contains(t));
                                let y = choose|y: int| 0 <= y < next_states.seq().len() && next_states.seq()[y] == t;
                                assert(listed_before(next_states.seq(), j as int, t));
                                assert(0 <= i < i + 1 && n.targets(states.seq()[i as int], Some(symbol)).contains(
                                    t,
                                ));
                            }
                        }
                    }
                },
                None => {
                    proof {
                        assert forall|t: State|
                            result@.contains(t) <==> exists|x: int|
                                0 <= x < i + 1 && #[trigger] n.targets(states.seq()[x], Some(symbol)).contains(
                                    t,
                                ) by {
                            if done.contains(t) {
                                let x = choose|x: int|
                                    0 <= x < i && #[trigger] n.targets(states.seq()[x], Some(symbol)).contains(t);
                                assert(0 <= x < i + 1 && n.targets(states.seq()[x], Some(symbol)).contains(t));
                            }
                        }
                    }
                },
            }
            i = i + 1;
        }
        proof {
            states.lemma_listing();
            assert(result@ =~= n.step_over(states@, symbol)) by {
                assert forall|t: State| result@.contains(t) <==> n.step_over(states@, symbol).contains(t) by {
                    if result@.contains(t) {
                        let x = choose|x: int|
                            0 <= x < i && #[trigger] n.targets(states.seq()[x], Some(symbol)).contains(t);
                        assert(states.seq().contains(states.seq()[x]));
                    }
                    if n.step_over(states@, symbol).contains(t) {
                        let s = choose|s: State| states@.contains(s) && #[trigger] n.targets(s, Some(symbol)).contains(t);
                        assert(states.seq().contains(s));
                        let x = choose|x: int| 0 <= x < states.seq().len() && states.seq()[x] == s;
                        assert(n.targets(states.seq()[x], Some(symbol)).contains(t));
                    }
                }
            }
        }
        result
    }
}

} // verus!
