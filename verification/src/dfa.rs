//! Deterministic finite automata with a partial transition function.

pub use crate::state_set::{State, Symbol};
use std::collections::HashSet;
use vstd::prelude::*;

verus! {

/// The mathematical content of a DFA: `(Q, Σ, δ, q0, F)` with `δ` a partial function.
pub struct DfaView {
    pub states: Set<State>,
    pub alphabet: Seq<Symbol>,
    pub delta: Map<(State, Symbol), State>,
    pub start: State,
    pub accept: Set<State>,
}

impl DfaView {
    /// `δ(s, a)`, or `None` where the automaton has no such transition.
    pub open spec fn step(self, s: State, a: Symbol) -> Option<State> {
        if self.delta.dom().contains((s, a)) {
            Some(self.delta[(s, a)])
        } else {
            None
        }
    }

    /// The referential invariants of an automaton: the start state, the
    /// accepting states and both ends of every transition are states, every
    /// transition reads a symbol of the alphabet, and the alphabet is a
    /// non-empty list without repetition.
    pub open spec fn wf(self) -> bool {
        &&& self.states.finite()
        &&& self.alphabet.len() > 0
        &&& self.alphabet.no_duplicates()
        &&& self.states.contains(self.start)
        &&& self.accept.subset_of(self.states)
        &&& forall|s: State, a: Symbol| #[trigger]
            self.delta.dom().contains((s, a)) ==> {
                &&& self.states.contains(s)
                &&& self.alphabet.contains(a)
                &&& self.states.contains(self.delta[(s, a)])
            }
    }

    /// The state reached from `s` by reading `w`; `None` as soon as a transition is missing.
    pub open spec fn run(self, s: State, w: Seq<Symbol>) -> Option<State>
        decreases w.len(),
    {
        if w.len() == 0 {
            Some(s)
        } else {
            match self.step(s, w[0]) {
                None => None,
                Some(t) => self.run(t, w.drop_first()),
            }
        }
    }

    /// Whether reading `w` from `s` ends in an accepting state.
    pub open spec fn accepts_from(self, s: State, w: Seq<Symbol>) -> bool {
        match self.run(s, w) {
            Some(t) => self.accept.contains(t),
            None => false,
        }
    }

    /// Whether the automaton accepts `w`.
    pub open spec fn accepts(self, w: Seq<Symbol>) -> bool {
        self.accepts_from(self.start, w)
    }

    /// Some word leads from the start state to `s`.
    #[verifier::opaque]
    pub open spec fn reachable(self, s: State) -> bool {
        exists|w: Seq<Symbol>| self.run(self.start, w) == Some(s)
    }

    /// Some word is accepted from `s`.
    #[verifier::opaque]
    pub open spec fn live(self, s: State) -> bool {
        exists|w: Seq<Symbol>| self.accepts_from(s, w)
    }

    /// A word that leads from the start state to `s`, where there is one.
    pub open spec fn path_to(self, s: State) -> Seq<Symbol> {
        choose|w: Seq<Symbol>| self.run(self.start, w) == Some(s)
    }

    /// A word that is accepted from `s`, where there is one.
    pub open spec fn path_from(self, s: State) -> Seq<Symbol> {
        choose|w: Seq<Symbol>| self.accepts_from(s, w)
    }

    /// A reachable state is reached by its path.
    pub proof fn lemma_path_to(self, s: State)
        requires
            self.reachable(s),
        ensures
            self.run(self.start, self.path_to(s)) == Some(s),
    {
        reveal(DfaView::reachable);
    }

    /// From a live state its path is accepted.
    pub proof fn lemma_path_from(self, s: State)
        requires
            self.live(s),
        ensures
            self.accepts_from(s, self.path_from(s)),
    {
        reveal(DfaView::live);
    }

    /// A state at the end of a run from the start state is reachable.
    pub proof fn lemma_reachable_by(self, s: State, w: Seq<Symbol>)
        requires
            self.run(self.start, w) == Some(s),
        ensures
            self.reachable(s),
    {
        reveal(DfaView::reachable);
    }

    /// A state from which a word is accepted is live.
    pub proof fn lemma_live_by(self, s: State, w: Seq<Symbol>)
        requires
            self.accepts_from(s, w),
        ensures
            self.live(s),
    {
        reveal(DfaView::live);
    }

    /// A state is useful if it can be reached and can still reach acceptance.
    pub open spec fn useful(self, s: State) -> bool {
        self.reachable(s) && self.live(s)
    }

    /// Two states are equivalent if the same words are accepted from both.
    pub open spec fn equivalent(self, s: State, t: State) -> bool {
        forall|w: Seq<Symbol>| self.accepts_from(s, w) == self.accepts_from(t, w)
    }

    /// The state reached from `s` by reading `w` without entering a state
    /// outside `within`; `None` where a transition is missing or leads outside.
    pub open spec fn run_within(self, s: State, w: Seq<Symbol>, within: Set<State>) -> Option<State>
        decreases w.len(),
    {
        if w.len() == 0 {
            Some(s)
        } else {
            match self.step(s, w[0]) {
                None => None,
                Some(t) => if within.contains(t) {
                    self.run_within(t, w.drop_first(), within)
                } else {
                    None
                },
            }
        }
    }

    /// Reading `w` from `s` ends in `t` and enters only states of `within`.
    pub open spec fn leads_within(self, s: State, w: Seq<Symbol>, t: State, within: Set<State>) -> bool {
        self.run_within(s, w, within) == Some(t)
    }

    /// Some word leads from `s` to `t` through states of `within` only.
    pub open spec fn reaches_within(self, s: State, t: State, within: Set<State>) -> bool {
        exists|w: Seq<Symbol>| self.leads_within(s, w, t, within)
    }

    /// Some accepting state can be reached from `s` on a path that, after
    /// `s`, enters only states of `within`.
    #[verifier::opaque]
    pub open spec fn live_within(self, s: State, within: Set<State>) -> bool {
        exists|w: Seq<Symbol>, t: State| self.leads_within(s, w, t, within) && self.accept.contains(t)
    }

    /// Every transition out of `x` is followed by `seen`.
    pub open spec fn expanded(self, x: State, seen: Set<State>) -> bool {
        forall|a: Symbol| #[trigger] self.step(x, a) is Some ==> seen.contains(self.step(x, a).unwrap())
    }

    /// Every transition out of `x` that stays in `within` is followed by `seen`.
    pub open spec fn expanded_within(self, x: State, seen: Set<State>, within: Set<State>) -> bool {
        forall|a: Symbol| #[trigger]
            self.step(x, a) is Some && within.contains(self.step(x, a).unwrap()) ==> seen.contains(
                self.step(x, a).unwrap(),
            )
    }

    /// A set that follows every transition out of its members holds whatever a
    /// run from a member arrives at.
    pub proof fn lemma_closed_run(self, seen: Set<State>, s: State, w: Seq<Symbol>)
        requires
            seen.contains(s),
            forall|x: State| seen.contains(x) ==> #[trigger] self.expanded(x, seen),
            self.run(s, w) is Some,
        ensures
            seen.contains(self.run(s, w).unwrap()),
        decreases w.len(),
    {
        if w.len() > 0 {
            assert(self.expanded(s, seen));
            let t = self.step(s, w[0]).unwrap();
            self.lemma_closed_run(seen, t, w.drop_first());
        }
    }

    /// The same for runs confined to `within`.
    pub proof fn lemma_closed_run_within(
        self,
        seen: Set<State>,
        within: Set<State>,
        s: State,
        w: Seq<Symbol>,
    )
        requires
            seen.contains(s),
            forall|x: State| seen.contains(x) ==> #[trigger] self.expanded_within(x, seen, within),
            self.run_within(s, w, within) is Some,
        ensures
            seen.contains(self.run_within(s, w, within).unwrap()),
        decreases w.len(),
    {
        if w.len() > 0 {
            assert(self.expanded_within(s, seen, within));
            let t = self.step(s, w[0]).unwrap();
            self.lemma_closed_run_within(seen, within, t, w.drop_first());
        }
    }

    /// A confined run can be prolonged by one more confined step.
    pub proof fn lemma_run_within_snoc(
        self,
        s: State,
        w: Seq<Symbol>,
        a: Symbol,
        within: Set<State>,
    )
        requires
            self.run_within(s, w, within) is Some,
            self.step(self.run_within(s, w, within).unwrap(), a) is Some,
            within.contains(self.step(self.run_within(s, w, within).unwrap(), a).unwrap()),
        ensures
            self.run_within(s, w.push(a), within) == self.step(
                self.run_within(s, w, within).unwrap(),
                a,
            ),
        decreases w.len(),
    {
        let wa = w.push(a);
        if w.len() == 0 {
            assert(wa[0] == a);
            assert(wa.drop_first().len() == 0);
            let t = self.step(s, a).unwrap();
            assert(self.run_within(t, wa.drop_first(), within) == Some(t));
        } else {
            assert(wa[0] == w[0]);
            assert(wa.drop_first() =~= w.drop_first().push(a));
            let t = self.step(s, w[0]).unwrap();
            self.lemma_run_within_snoc(t, w.drop_first(), a, within);
        }
    }

    /// Among states that contain all their successors, a confined run is a run.
    pub proof fn lemma_run_within_closed(self, s: State, w: Seq<Symbol>, within: Set<State>)
        requires
            within.contains(s),
            forall|x: State| within.contains(x) ==> #[trigger] self.expanded(x, within),
        ensures
            self.run_within(s, w, within) == self.run(s, w),
        decreases w.len(),
    {
        if w.len() > 0 {
            assert(self.expanded(s, within));
            match self.step(s, w[0]) {
                None => {},
                Some(t) => {
                    self.lemma_run_within_closed(t, w.drop_first(), within);
                },
            }
        }
    }

    /// Reading `[a] + w` is one step on `a` followed by reading `w`.
    pub proof fn lemma_run_cons(self, s: State, a: Symbol, w: Seq<Symbol>)
        ensures
            self.run(s, seq![a] + w) == match self.step(s, a) {
                None => None,
                Some(t) => self.run(t, w),
            },
            self.accepts_from(s, seq![a] + w) == match self.step(s, a) {
                None => false,
                Some(t) => self.accepts_from(t, w),
            },
    {
        let aw = seq![a] + w;
        assert(aw[0] == a);
        assert(aw.drop_first() =~= w);
    }

    /// Reading `u + v` is reading `u` and then `v`.
    pub proof fn lemma_run_concat(self, s: State, u: Seq<Symbol>, v: Seq<Symbol>)
        ensures
            self.run(s, u + v) == match self.run(s, u) {
                None => None,
                Some(t) => self.run(t, v),
            },
        decreases u.len(),
    {
        if u.len() == 0 {
            assert(u + v =~= v);
        } else {
            let uv = u + v;
            assert(uv[0] == u[0]);
            assert(uv.drop_first() =~= u.drop_first() + v);
            match self.step(s, u[0]) {
                None => {},
                Some(t) => {
                    self.lemma_run_concat(t, u.drop_first(), v);
                },
            }
        }
    }

    /// A run of a well-formed automaton stays among its states and reads only
    /// symbols of its alphabet.
    pub proof fn lemma_run_stays(self, s: State, w: Seq<Symbol>)
        requires
            self.wf(),
            self.states.contains(s),
        ensures
            match self.run(s, w) {
                Some(t) => self.states.contains(t) && forall|i: int|
                    0 <= i < w.len() ==> self.alphabet.contains(#[trigger] w[i]),
                None => true,
            },
        decreases w.len(),
    {
        if w.len() > 0 {
            match self.step(s, w[0]) {
                None => {},
                Some(t) => {
                    assert(self.delta.dom().contains((s, w[0])));
                    self.lemma_run_stays(t, w.drop_first());
                    if self.run(t, w.drop_first()) is Some {
                        assert forall|i: int| 0 <= i < w.len() implies self.alphabet.contains(
                            #[trigger] w[i],
                        ) by {
                            if i > 0 {
                                assert(w[i] == w.drop_first()[i - 1]);
                            }
                        }
                    }
                },
            }
        }
    }

    /// The start state is reachable, by the empty word.
    pub proof fn lemma_start_reachable(self)
        ensures
            self.reachable(self.start),
    {
        self.lemma_reachable_by(self.start, Seq::<Symbol>::empty());
    }

    /// A state one step after a reachable state is reachable.
    pub proof fn lemma_reachable_step(self, s: State, a: Symbol)
        requires
            self.reachable(s),
            self.step(s, a) is Some,
        ensures
            self.reachable(self.step(s, a).unwrap()),
    {
        self.lemma_path_to(s);
        let w = self.path_to(s);
        self.lemma_run_concat(self.start, w, seq![a]);
        let t = self.step(s, a).unwrap();
        self.lemma_run_cons(s, a, Seq::<Symbol>::empty());
        assert(seq![a] + Seq::<Symbol>::empty() =~= seq![a]);
        assert(self.run(s, seq![a]) == Some(t));
        self.lemma_reachable_by(t, w + seq![a]);
    }

    /// A state from which a live state can be reached is live.
    pub proof fn lemma_live_before(self, s: State, w: Seq<Symbol>)
        requires
            self.run(s, w) is Some,
            self.live(self.run(s, w).unwrap()),
        ensures
            self.live(s),
    {
        let t = self.run(s, w).unwrap();
        self.lemma_path_from(t);
        let v = self.path_from(t);
        self.lemma_run_concat(s, w, v);
        self.lemma_live_by(s, w + v);
    }

    /// If any state at all is useful, the start state is.
    pub proof fn lemma_useful_start(self, s: State)
        requires
            self.useful(s),
        ensures
            self.useful(self.start),
    {
        self.lemma_start_reachable();
        self.lemma_path_to(s);
        self.lemma_live_before(self.start, self.path_to(s));
    }

    /// Nothing is accepted from a reachable state that is not useful.
    pub proof fn lemma_useless_rejects(self, s: State, w: Seq<Symbol>)
        requires
            self.reachable(s),
            !self.useful(s),
        ensures
            !self.accepts_from(s, w),
    {
        if self.accepts_from(s, w) {
            self.lemma_live_by(s, w);
        }
    }
}

/// The destination that a list of transition records gives for `(s, a)`:
/// that of the last record for this pair, as if the records had been entered
/// into a table one after the other.
pub open spec fn dfa_lookup(t: Seq<(State, Symbol, State)>, s: State, a: Symbol) -> Option<State>
    decreases t.len(),
{
    if t.len() == 0 {
        None
    } else if t.last().0 == s && t.last().1 == a {
        Some(t.last().2)
    } else {
        dfa_lookup(t.drop_last(), s, a)
    }
}

/// The partial function that a list of transition records stands for.
pub open spec fn dfa_delta(t: Seq<(State, Symbol, State)>) -> Map<(State, Symbol), State> {
    Map::new(
        |k: (State, Symbol)| dfa_lookup(t, k.0, k.1) is Some,
        |k: (State, Symbol)| dfa_lookup(t, k.0, k.1).unwrap(),
    )
}

/// No `(state, symbol)` pair is listed twice.
pub open spec fn dfa_keys_unique(t: Seq<(State, Symbol, State)>) -> bool {
    forall|i: int, j: int|
        0 <= i < j < t.len() ==> !(#[trigger] t[i].0 == #[trigger] t[j].0 && t[i].1 == t[j].1)
}

/// `a` is among the first `k` symbols of the alphabet.
pub open spec fn symbol_before(alphabet: Seq<Symbol>, k: int, a: Symbol) -> bool {
    exists|x: int| 0 <= x < k && alphabet[x] == a
}

/// The record `e` comes before the record `f` where the records are sorted
/// by their states and, for one state, by the place of their symbols in the alphabet.
pub open spec fn record_before(alphabet: Seq<Symbol>, e: (State, Symbol, State), f: (State, Symbol, State)) -> bool {
    e.0 < f.0 || (e.0 == f.0 && exists|i: int, j: int|
        0 <= i < j < alphabet.len() && alphabet[i] == e.1 && alphabet[j] == f.1)
}

/// The records are listed state by state and, for each state, in the order of the alphabet.
#[verifier::opaque]
pub open spec fn dfa_keys_sorted(alphabet: Seq<Symbol>, t: Seq<(State, Symbol, State)>) -> bool {
    forall|x: int, y: int| 0 <= x < y < t.len() ==> record_before(alphabet, #[trigger] t[x], #[trigger] t[y])
}

/// Every record is for a state before `i`, or for state `i` and one of the
/// first `k` symbols of the alphabet.
#[verifier::opaque]
pub open spec fn dfa_keys_upto(alphabet: Seq<Symbol>, t: Seq<(State, Symbol, State)>, i: int, k: int) -> bool {
    forall|x: int| 0 <= x < t.len() ==> (#[trigger] t[x]).0 < i || (t[x].0 == i && symbol_before(alphabet, k, t[x].1))
}

/// Records listed in the order of an alphabet without repetition name no pair twice.
pub proof fn lemma_sorted_keys_unique(alphabet: Seq<Symbol>, t: Seq<(State, Symbol, State)>)
    requires
        alphabet.no_duplicates(),
        dfa_keys_sorted(alphabet, t),
    ensures
        dfa_keys_unique(t),
{
    reveal(dfa_keys_sorted);
    assert forall|x: int, y: int| 0 <= x < y < t.len() implies !(#[trigger] t[x].0 == #[trigger] t[y].0 && t[x].1
        == t[y].1) by {
        assert(record_before(alphabet, t[x], t[y]));
    }
}

/// An empty list of records is sorted and has got nowhere yet.
pub proof fn lemma_sorted_keys_empty(alphabet: Seq<Symbol>, t: Seq<(State, Symbol, State)>)
    requires
        t.len() == 0,
    ensures
        dfa_keys_sorted(alphabet, t),
        dfa_keys_upto(alphabet, t, 0, 0),
{
    reveal(dfa_keys_sorted);
    reveal(dfa_keys_upto);
}

/// A record for the `k`-th symbol of state `i` can be appended to a list
/// that has got as far as that symbol.
pub proof fn lemma_sorted_keys_push(
    alphabet: Seq<Symbol>,
    t: Seq<(State, Symbol, State)>,
    e: (State, Symbol, State),
    k: int,
)
    requires
        dfa_keys_sorted(alphabet, t),
        dfa_keys_upto(alphabet, t, e.0 as int, k),
        0 <= k < alphabet.len(),
        e.1 == alphabet[k],
    ensures
        dfa_keys_sorted(alphabet, t.push(e)),
        dfa_keys_upto(alphabet, t.push(e), e.0 as int, k + 1),
{
    reveal(dfa_keys_sorted);
    reveal(dfa_keys_upto);
    let u = t.push(e);
    assert forall|x: int, y: int| 0 <= x < y < u.len() implies record_before(
        alphabet,
        #[trigger] u[x],
        #[trigger] u[y],
    ) by {
        assert(u[x] == t[x]);
        if y < t.len() {
            assert(u[y] == t[y]);
        } else if t[x].0 == e.0 {
            let i = choose|i: int| 0 <= i < k && alphabet[i] == t[x].1;
            assert(0 <= i < k < alphabet.len() && alphabet[i] == u[x].1 && alphabet[k] == u[y].1);
        }
    }
    assert forall|x: int| 0 <= x < u.len() implies (#[trigger] u[x]).0 < e.0 || (u[x].0 == e.0 && symbol_before(
        alphabet,
        k + 1,
        u[x].1,
    )) by {
        if x < t.len() {
            assert(u[x] == t[x]);
            if t[x].0 == e.0 {
                let i = choose|i: int| 0 <= i < k && alphabet[i] == t[x].1;
                assert(0 <= i < k + 1 && alphabet[i] == u[x].1);
            }
        } else {
            assert(0 <= k < k + 1 && alphabet[k] == u[x].1);
        }
    }
}

/// A list that has got as far as some symbol of some state has got as far
/// as every later one.
pub proof fn lemma_sorted_keys_later(
    alphabet: Seq<Symbol>,
    t: Seq<(State, Symbol, State)>,
    i: int,
    k: int,
    i2: int,
    k2: int,
)
    requires
        dfa_keys_upto(alphabet, t, i, k),
        i < i2 || (i == i2 && k <= k2),
    ensures
        dfa_keys_upto(alphabet, t, i2, k2),
{
    reveal(dfa_keys_upto);
    assert forall|x: int| 0 <= x < t.len() implies (#[trigger] t[x]).0 < i2 || (t[x].0 == i2 && symbol_before(
        alphabet,
        k2,
        t[x].1,
    )) by {
        if t[x].0 == i && i == i2 {
            let j = choose|j: int| 0 <= j < k && alphabet[j] == t[x].1;
            assert(0 <= j < k2 && alphabet[j] == t[x].1);
        }
    }
}

/// Appending a record changes the destination of its own pair and of no other.
pub proof fn lemma_dfa_lookup_push(
    t: Seq<(State, Symbol, State)>,
    e: (State, Symbol, State),
    s: State,
    a: Symbol,
)
    ensures
        dfa_lookup(t.push(e), s, a) == if e.0 == s && e.1 == a {
            Some(e.2)
        } else {
            dfa_lookup(t, s, a)
        },
{
    assert(t.push(e).last() == e);
    assert(t.push(e).drop_last() =~= t);
}

/// A deterministic finite automaton.
///
/// `trxn` lists the transitions as `(from, symbol, to)` records; a pair
/// `(from, symbol)` without a record has no transition, which is not the same
/// as a transition into a rejecting sink.
#[derive(Debug, PartialEq, Eq)]
pub struct DFA {
    /// The states `Q`.
    pub q: HashSet<State>,
    /// The alphabet `Σ`.
    pub alphabet: Vec<Symbol>,
    /// The transition function `δ`.
    pub trxn: Vec<(State, Symbol, State)>,
    /// The start state `q0`.
    pub q0: State,
    /// The accepting states `F`.
    pub f: HashSet<State>,
}

impl View for DFA {
    type V = DfaView;

    open spec fn view(&self) -> DfaView {
        DfaView {
            states: self.q@,
            alphabet: self.alphabet@,
            delta: dfa_delta(self.trxn@),
            start: self.q0,
            accept: self.f@,
        }
    }
}

impl DFA {
    /// The automaton satisfies the referential invariants.
    pub open spec fn wf(&self) -> bool {
        self@.wf()
    }

    /// The destination of the transition from `state` on `symbol`, if there is one.
    pub fn step_over(&self, state: State, symbol: Symbol) -> (next: Option<State>)
        ensures
            next == self@.step(state, symbol),
    {
        let mut i: usize = self.trxn.len();
        assert(self.trxn@.subrange(0, i as int) =~= self.trxn@);
        while i > 0
            invariant
                i <= self.trxn@.len(),
                dfa_lookup(self.trxn@, state, symbol) == dfa_lookup(
                    self.trxn@.subrange(0, i as int),
                    state,
                    symbol,
                ),
            decreases i,
        {
            i = i - 1;
            let ghost prefix = self.trxn@.subrange(0, i + 1);
            assert(prefix.last() == self.trxn@[i as int]);
            assert(prefix.drop_last() =~= self.trxn@.subrange(0, i as int));
            if self.trxn[i].0 == state && self.trxn[i].1 == symbol {
                return Some(self.trxn[i].2);
            }
        }
        assert(self.trxn@.subrange(0, 0).len() == 0);
        None
    }
}

} // verus!
