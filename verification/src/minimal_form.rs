//! What it means for one DFA to be the minimal form of another, and what
//! follows from it.

use crate::dfa::DfaView;
use crate::state_set::{inhabited, State, Symbol};
use vstd::prelude::*;
use vstd::set_lib::lemma_set_subset_finite;
use vstd::map_lib::lemma_values_finite;

verus! {

/// The canonical automaton that accepts nothing: one state, which is not
/// accepting, with a loop on every symbol.
pub open spec fn rejecting_dfa(alphabet: Seq<Symbol>) -> DfaView {
    DfaView {
        states: set![0u32],
        alphabet,
        delta: Map::new(
            |k: (State, Symbol)| k.0 == 0 && alphabet.contains(k.1),
            |k: (State, Symbol)| 0u32,
        ),
        start: 0,
        accept: Set::empty(),
    }
}

/// The useful states of an automaton.
pub open spec fn useful_states(d: DfaView) -> Set<State> {
    Set::new(|s: State| d.useful(s))
}

/// The transition out of `s` on `a`, unless it leads to a state that is discarded.
pub open spec fn useful_step(d: DfaView, s: State, a: Symbol) -> Option<State> {
    match d.step(s, a) {
        Some(t) => if d.useful(t) {
            Some(t)
        } else {
            None
        },
        None => None,
    }
}

/// The set has a member smaller than `t`.
pub open spec fn starts_before(class: Set<State>, t: State) -> bool {
    exists|r: State| class.contains(r) && r < t
}

/// `s` is in one of the classes.
pub open spec fn classified(classes: Seq<Set<State>>, s: State) -> bool {
    exists|c: int| 0 <= c < classes.len() && #[trigger] classes[c].contains(s)
}

/// `classes` lists the equivalence classes of the useful states of `d`, each
/// once, in the order of their smallest members.
pub open spec fn is_partition(d: DfaView, classes: Seq<Set<State>>) -> bool {
    &&& forall|c: int| 0 <= c < classes.len() ==> inhabited(#[trigger] classes[c])
    &&& forall|c: int, s: State|
        0 <= c < classes.len() && #[trigger] classes[c].contains(s) ==> d.useful(s)
    &&& forall|s: State| d.useful(s) ==> #[trigger] classified(classes, s)
    &&& forall|c1: int, c2: int, s: State, t: State|
        0 <= c1 < classes.len() && 0 <= c2 < classes.len() && #[trigger] classes[c1].contains(s)
            && #[trigger] classes[c2].contains(t) ==> (c1 == c2 <==> d.equivalent(s, t))
    &&& forall|c1: int, c2: int, t: State|
        #![trigger classes[c2].contains(t), classes[c1]]
        0 <= c1 < c2 < classes.len() && classes[c2].contains(t) ==> starts_before(classes[c1], t)
}

/// The class of `s` has a member smaller than `t`.
pub open spec fn class_starts_before(d: DfaView, cls: Map<State, State>, s: State, t: State) -> bool {
    exists|r: State| d.useful(r) && #[trigger] cls[r] == cls[s] && r < t
}

/// `m` is the quotient of the useful part of `d` by equivalence of states,
/// `cls` sending each useful state to the state of `m` that stands for its class.
///
/// The states of `m` are `0..n`, numbered in the order of the smallest member
/// of each class. A transition of `d` into a state that is not useful has no
/// counterpart in `m`.
pub open spec fn is_quotient(d: DfaView, m: DfaView, cls: Map<State, State>) -> bool {
    &&& cls.dom() == useful_states(d)
    &&& m.states == Set::new(|c: State| exists|s: State| d.useful(s) && #[trigger] cls[s] == c)
    &&& forall|c: State, b: State| #[trigger] m.states.contains(c) && b < c ==> #[trigger] m.states.contains(b)
    &&& m.alphabet == d.alphabet
    &&& m.start == cls[d.start]
    &&& forall|s: State, t: State|
        #![trigger cls[s], cls[t]]
        d.useful(s) && d.useful(t) ==> (cls[s] == cls[t] <==> d.equivalent(s, t))
    &&& forall|s: State, t: State|
        d.useful(s) && d.useful(t) && cls[s] < cls[t] ==> #[trigger] class_starts_before(d, cls, s, t)
    &&& m.accept == Set::new(
        |c: State| exists|s: State| d.useful(s) && d.accept.contains(s) && #[trigger] cls[s] == c,
    )
    &&& forall|s: State, a: Symbol|
        d.useful(s) ==> #[trigger] m.step(cls[s], a) == match useful_step(d, s, a) {
            Some(t) => Some(cls[t]),
            None => None,
        }
    &&& forall|c: State, a: Symbol| #[trigger] m.delta.dom().contains((c, a)) ==> m.states.contains(c)
}

/// `m` is the minimal form of `d`: the quotient of its useful part, or, where
/// `d` accepts nothing at all, the canonical rejecting automaton.
pub open spec fn is_minimization(d: DfaView, m: DfaView) -> bool {
    if d.useful(d.start) {
        exists|cls: Map<State, State>| is_quotient(d, m, cls)
    } else {
        m == rejecting_dfa(d.alphabet)
    }
}

/// The position of the class that holds `s`.
pub open spec fn class_index(classes: Seq<Set<State>>, s: State) -> int {
    choose|c: int| 0 <= c < classes.len() && #[trigger] classes[c].contains(s)
}

/// The map from each useful state to the number of its class.
pub open spec fn class_map(d: DfaView, classes: Seq<Set<State>>) -> Map<State, State> {
    Map::new(|s: State| d.useful(s), |s: State| class_index(classes, s) as State)
}

/// A state is in one class only.
pub proof fn lemma_class_index(d: DfaView, classes: Seq<Set<State>>, c: int, s: State)
    requires
        is_partition(d, classes),
        0 <= c < classes.len(),
        classes[c].contains(s),
    ensures
        class_index(classes, s) == c,
        d.useful(s),
{
    let b = class_index(classes, s);
    assert(classes[b].contains(s));
    assert(d.equivalent(s, s));
}

/// A useful state is in the class that `class_index` names.
pub proof fn lemma_class_of_useful(d: DfaView, classes: Seq<Set<State>>, s: State)
    requires
        is_partition(d, classes),
        d.useful(s),
    ensures
        0 <= class_index(classes, s) < classes.len(),
        classes[class_index(classes, s)].contains(s),
{
    assert(classified(classes, s));
}

/// No member of a class is smaller than the number of the class, so the
/// classes can be numbered by states.
pub proof fn lemma_class_bound(d: DfaView, classes: Seq<Set<State>>, c: int, t: State)
    requires
        is_partition(d, classes),
        0 <= c < classes.len(),
        classes[c].contains(t),
    ensures
        c <= t,
    decreases c,
{
    if c > 0 {
        let before = classes[c - 1];
        assert(starts_before(before, t));
        let r = choose|r: State| before.contains(r) && r < t;
        lemma_class_bound(d, classes, c - 1, r);
    }
}

/// There are no more classes than state identifiers.
pub proof fn lemma_class_count(d: DfaView, classes: Seq<Set<State>>)
    requires
        is_partition(d, classes),
    ensures
        classes.len() <= 0x1_0000_0000,
{
    if classes.len() > 0 {
        let c = classes.len() - 1;
        assert(inhabited(classes[c]));
        let t = choose|t: State| classes[c].contains(t);
        lemma_class_bound(d, classes, c, t);
    }
}

/// The automaton whose states are the classes of a partition is the quotient.
///
/// `m` has one state for each class; it starts in the class of the start
/// state, accepts in the classes with an accepting member, and steps as
/// member `reps[c]` of each class `c` does.
pub proof fn lemma_classes_give_quotient(d: DfaView, classes: Seq<Set<State>>, reps: Seq<State>, m: DfaView)
    requires
        d.useful(d.start),
        is_partition(d, classes),
        reps.len() == classes.len(),
        forall|c: int| 0 <= c < classes.len() ==> classes[c].contains(#[trigger] reps[c]),
        m.alphabet == d.alphabet,
        forall|c: State| m.states.contains(c) <==> c < classes.len(),
        m.start == class_index(classes, d.start),
        forall|c: State|
            m.accept.contains(c) <==> c < classes.len() && exists|s: State|
                #[trigger] classes[c as int].contains(s) && d.accept.contains(s),
        forall|c: State, a: Symbol|
            #[trigger] m.step(c, a) == if c < classes.len() {
                match useful_step(d, reps[c as int], a) {
                    Some(t) => Some(class_index(classes, t) as State),
                    None => None,
                }
            } else {
                None
            },
    ensures
        is_quotient(d, m, class_map(d, classes)),
{
    let cls = class_map(d, classes);
    lemma_class_count(d, classes);
    assert(cls.dom() =~= useful_states(d));
    assert forall|s: State| d.useful(s) implies 0 <= class_index(classes, s) < classes.len() && classes[class_index(
        classes,
        s,
    )].contains(s) && #[trigger] cls[s] == class_index(classes, s) by {
        lemma_class_of_useful(d, classes, s);
    }
    assert(m.states =~= Set::new(|c: State| exists|s: State| d.useful(s) && #[trigger] cls[s] == c)) by {
        assert forall|c: State| m.states.contains(c) implies exists|s: State| d.useful(s) && #[trigger] cls[s] == c by {
            lemma_class_index(d, classes, c as int, reps[c as int]);
            assert(cls[reps[c as int]] == c);
        }
    }
    assert forall|s: State, t: State|
        #![trigger cls[s], cls[t]]
        d.useful(s) && d.useful(t) implies (cls[s] == cls[t] <==> d.equivalent(s, t)) by {
        lemma_class_of_useful(d, classes, s);
        lemma_class_of_useful(d, classes, t);
    }
    assert forall|s: State, t: State|
        d.useful(s) && d.useful(t) && cls[s] < cls[t] implies #[trigger] class_starts_before(d, cls, s, t) by {
        let c1 = class_index(classes, s);
        let c2 = class_index(classes, t);
        lemma_class_of_useful(d, classes, s);
        lemma_class_of_useful(d, classes, t);
        assert(classes[c2].contains(t));
        assert(starts_before(classes[c1], t));
        let r = choose|r: State| classes[c1].contains(r) && r < t;
        lemma_class_index(d, classes, c1, r);
        assert(d.useful(r) && cls[r] == cls[s] && r < t);
    }
    assert(m.accept =~= Set::new(
        |c: State| exists|s: State| d.useful(s) && d.accept.contains(s) && #[trigger] cls[s] == c,
    )) by {
        assert forall|c: State| m.accept.contains(c) implies exists|s: State|
            d.useful(s) && d.accept.contains(s) && #[trigger] cls[s] == c by {
            let s = choose|s: State| #[trigger] classes[c as int].contains(s) && d.accept.contains(s);
            lemma_class_index(d, classes, c as int, s);
            assert(d.useful(s) && d.accept.contains(s) && cls[s] == c);
        }
        assert forall|c: State|
            (exists|s: State| d.useful(s) && d.accept.contains(s) && #[trigger] cls[s] == c) implies m.accept.contains(
            c,
        ) by {
            let s = choose|s: State| d.useful(s) && d.accept.contains(s) && #[trigger] cls[s] == c;
            lemma_class_of_useful(d, classes, s);
            assert(classes[c as int].contains(s) && d.accept.contains(s));
        }
    }
    assert forall|s: State, a: Symbol| d.useful(s) implies #[trigger] m.step(cls[s], a) == match useful_step(
        d,
        s,
        a,
    ) {
        Some(t) => Some(cls[t]),
        None => None,
    } by {
        let c = class_index(classes, s);
        lemma_class_of_useful(d, classes, s);
        let r = reps[c];
        lemma_class_index(d, classes, c, r);
        assert(classes[c].contains(r) && classes[c].contains(s));
        assert(d.equivalent(r, s));
        lemma_equivalent_step(d, r, s, a);
        if useful_step(d, r, a) is Some {
            let x = useful_step(d, r, a).unwrap();
            let y = useful_step(d, s, a).unwrap();
            lemma_class_of_useful(d, classes, x);
            lemma_class_of_useful(d, classes, y);
            assert(cls[x] == cls[y]);
        }
    }
    assert forall|c: State, a: Symbol| #[trigger] m.delta.dom().contains((c, a)) implies m.states.contains(c) by {
        assert(m.step(c, a) is Some);
    }
}

/// Equivalent useful states have, on every symbol, either both no transition
/// worth keeping or transitions into equivalent useful states.
pub proof fn lemma_equivalent_step(d: DfaView, s: State, t: State, a: Symbol)
    requires
        d.useful(s),
        d.useful(t),
        d.equivalent(s, t),
    ensures
        useful_step(d, s, a) is Some <==> useful_step(d, t, a) is Some,
        useful_step(d, s, a) is Some ==> d.equivalent(
            useful_step(d, s, a).unwrap(),
            useful_step(d, t, a).unwrap(),
        ),
{
    if useful_step(d, s, a) is Some {
        lemma_step_transfers(d, s, t, a);
    }
    if useful_step(d, t, a) is Some {
        lemma_step_transfers(d, t, s, a);
    }
    if useful_step(d, s, a) is Some {
        let x = useful_step(d, s, a).unwrap();
        let y = useful_step(d, t, a).unwrap();
        assert forall|w: Seq<Symbol>| d.accepts_from(x, w) == d.accepts_from(y, w) by {
            d.lemma_run_cons(s, a, w);
            d.lemma_run_cons(t, a, w);
            assert(d.accepts_from(s, seq![a] + w) == d.accepts_from(t, seq![a] + w));
        }
    }
}

proof fn lemma_step_transfers(d: DfaView, s: State, t: State, a: Symbol)
    requires
        d.useful(s),
        d.useful(t),
        d.equivalent(s, t),
        useful_step(d, s, a) is Some,
    ensures
        useful_step(d, t, a) is Some,
{
    let x = useful_step(d, s, a).unwrap();
    d.lemma_path_from(x);
    let w = d.path_from(x);
    d.lemma_run_cons(s, a, w);
    d.lemma_run_cons(t, a, w);
    assert(d.accepts_from(s, seq![a] + w) == d.accepts_from(t, seq![a] + w));
    let y = d.step(t, a).unwrap();
    d.lemma_live_by(y, w);
    d.lemma_reachable_step(t, a);
}

/// A word is accepted from a state of the quotient exactly if it is accepted
/// from the states that it stands for.
pub proof fn lemma_quotient_accepts(
    d: DfaView,
    m: DfaView,
    cls: Map<State, State>,
    s: State,
    w: Seq<Symbol>,
)
    requires
        is_quotient(d, m, cls),
        d.useful(s),
    ensures
        m.accepts_from(cls[s], w) == d.accepts_from(s, w),
    decreases w.len(),
{
    if w.len() == 0 {
        if m.accept.contains(cls[s]) {
            let t = choose|t: State| d.useful(t) && d.accept.contains(t) && #[trigger] cls[t] == cls[s];
            assert(d.equivalent(s, t));
            assert(d.accepts_from(s, w) == d.accepts_from(t, w));
        }
        if d.accept.contains(s) {
            assert(d.useful(s) && d.accept.contains(s) && cls[s] == cls[s]);
        }
    } else {
        let a = w[0];
        assert(m.step(cls[s], a) == match useful_step(d, s, a) {
            Some(t) => Some(cls[t]),
            None => None,
        });
        match d.step(s, a) {
            None => {},
            Some(t) => {
                if d.useful(t) {
                    lemma_quotient_accepts(d, m, cls, t, w.drop_first());
                } else {
                    d.lemma_reachable_step(s, a);
                    d.lemma_useless_rejects(t, w.drop_first());
                }
            },
        }
    }
}

/// A run of `d` between useful states is matched, step by step, by a run of the quotient.
pub proof fn lemma_quotient_run(
    d: DfaView,
    m: DfaView,
    cls: Map<State, State>,
    s: State,
    w: Seq<Symbol>,
)
    requires
        is_quotient(d, m, cls),
        d.useful(s),
        d.run(s, w) is Some,
        d.useful(d.run(s, w).unwrap()),
    ensures
        m.run(cls[s], w) == Some(cls[d.run(s, w).unwrap()]),
    decreases w.len(),
{
    if w.len() > 0 {
        let a = w[0];
        let t = d.step(s, a).unwrap();
        d.lemma_reachable_step(s, a);
        d.lemma_live_before(t, w.drop_first());
        assert(m.step(cls[s], a) == match useful_step(d, s, a) {
            Some(t) => Some(cls[t]),
            None => None,
        });
        lemma_quotient_run(d, m, cls, t, w.drop_first());
    }
}

/// The minimal form accepts exactly the words that the automaton accepts.
pub proof fn lemma_minimization_preserves_language(d: DfaView, m: DfaView)
    requires
        is_minimization(d, m),
    ensures
        forall|w: Seq<Symbol>| m.accepts(w) == d.accepts(w),
{
    assert forall|w: Seq<Symbol>| m.accepts(w) == d.accepts(w) by {
        if d.useful(d.start) {
            let cls = choose|cls: Map<State, State>| is_quotient(d, m, cls);
            lemma_quotient_accepts(d, m, cls, d.start, w);
        } else {
            d.lemma_start_reachable();
            d.lemma_useless_rejects(d.start, w);
        }
    }
}

/// The minimal form of a well-formed automaton is well-formed.
pub proof fn lemma_minimization_wf(d: DfaView, m: DfaView)
    requires
        d.wf(),
        is_minimization(d, m),
    ensures
        m.wf(),
{
    if d.useful(d.start) {
        let cls = choose|cls: Map<State, State>| is_quotient(d, m, cls);
        assert(useful_states(d).subset_of(d.states)) by {
            assert forall|s: State| d.useful(s) implies d.states.contains(s) by {
                d.lemma_path_to(s);
                d.lemma_run_stays(d.start, d.path_to(s));
            }
        }
        lemma_set_subset_finite(d.states, useful_states(d));
        lemma_values_finite(cls);
        assert(m.states =~= cls.values()) by {
            assert forall|c: State| m.states.contains(c) <==> cls.values().contains(c) by {
                if m.states.contains(c) {
                    let s = choose|s: State| d.useful(s) && #[trigger] cls[s] == c;
                    assert(cls.dom().contains(s));
                    assert(cls.contains_value(c));
                }
                if cls.values().contains(c) {
                    let s = choose|s: State| #[trigger] cls.dom().contains(s) && cls[s] == c;
                    assert(d.useful(s));
                }
            }
        }
        assert(d.useful(d.start) && cls[d.start] == m.start);
        assert forall|c: State, a: Symbol| #[trigger] m.delta.dom().contains((c, a)) implies {
            &&& m.states.contains(c)
            &&& m.alphabet.contains(a)
            &&& m.states.contains(m.delta[(c, a)])
        } by {
            let s = choose|s: State| d.useful(s) && #[trigger] cls[s] == c;
            assert(m.step(cls[s], a) == match useful_step(d, s, a) {
                Some(t) => Some(cls[t]),
                None => None,
            });
            let t = useful_step(d, s, a).unwrap();
            assert(d.delta.dom().contains((s, a)));
            assert(d.useful(t) && cls[t] == m.delta[(c, a)]);
        }
    } else {
        assert(m.states.contains(0u32));
    }
}

/// In a quotient every state is useful, and no two states are equivalent.
pub proof fn lemma_quotient_is_reduced(d: DfaView, m: DfaView, cls: Map<State, State>)
    requires
        d.useful(d.start),
        is_quotient(d, m, cls),
    ensures
        forall|c: State| m.states.contains(c) ==> m.useful(c),
        forall|c: State| m.useful(c) ==> m.states.contains(c),
        forall|b: State, c: State| m.states.contains(b) && m.states.contains(c) && b != c ==> !m.equivalent(b, c),
{
    assert forall|c: State| m.states.contains(c) implies m.useful(c) by {
        let s = choose|s: State| d.useful(s) && #[trigger] cls[s] == c;
        d.lemma_path_to(s);
        let u = d.path_to(s);
        lemma_quotient_run(d, m, cls, d.start, u);
        m.lemma_reachable_by(c, u);
        d.lemma_path_from(s);
        let v = d.path_from(s);
        lemma_quotient_accepts(d, m, cls, s, v);
        m.lemma_live_by(c, v);
    }
    assert forall|c: State| m.useful(c) implies m.states.contains(c) by {
        m.lemma_path_to(c);
        assert(d.useful(d.start) && cls[d.start] == m.start);
        lemma_quotient_run_stays(d, m, cls, m.start, m.path_to(c));
    }
    assert forall|b: State, c: State|
        m.states.contains(b) && m.states.contains(c) && b != c implies !m.equivalent(b, c) by {
        let s = choose|s: State| d.useful(s) && #[trigger] cls[s] == b;
        let t = choose|t: State| d.useful(t) && #[trigger] cls[t] == c;
        assert(!d.equivalent(s, t));
        let w = choose|w: Seq<Symbol>| d.accepts_from(s, w) != d.accepts_from(t, w);
        lemma_quotient_accepts(d, m, cls, s, w);
        lemma_quotient_accepts(d, m, cls, t, w);
        assert(m.accepts_from(b, w) != m.accepts_from(c, w));
    }
}

/// A run of a quotient never leaves its states.
proof fn lemma_quotient_run_stays(
    d: DfaView,
    m: DfaView,
    cls: Map<State, State>,
    c: State,
    w: Seq<Symbol>,
)
    requires
        is_quotient(d, m, cls),
        m.states.contains(c),
        m.run(c, w) is Some,
    ensures
        m.states.contains(m.run(c, w).unwrap()),
    decreases w.len(),
{
    if w.len() > 0 {
        let a = w[0];
        let s = choose|s: State| d.useful(s) && #[trigger] cls[s] == c;
        assert(m.step(cls[s], a) == match useful_step(d, s, a) {
            Some(t) => Some(cls[t]),
            None => None,
        });
        let t = useful_step(d, s, a).unwrap();
        assert(d.useful(t) && cls[t] == m.step(c, a).unwrap());
        lemma_quotient_run_stays(d, m, cls, m.step(c, a).unwrap(), w.drop_first());
    }
}

/// The states of a quotient are an initial segment of the numbers, and its
/// accepting states and transitions stay among them.
pub open spec fn is_closed_numbering(m: DfaView) -> bool {
    &&& forall|c: State, b: State| #[trigger] m.states.contains(c) && b < c ==> #[trigger] m.states.contains(b)
    &&& m.states.contains(m.start)
    &&& m.accept.subset_of(m.states)
    &&& forall|c: State, a: Symbol| #[trigger]
        m.delta.dom().contains((c, a)) ==> m.states.contains(c) && m.states.contains(m.delta[(c, a)])
}

/// In a reduced automaton every state is useful, all useful states are states,
/// and no two states are equivalent.
pub open spec fn is_reduced(m: DfaView) -> bool {
    &&& forall|c: State| m.states.contains(c) <==> m.useful(c)
    &&& forall|b: State, c: State|
        m.states.contains(b) && m.states.contains(c) && b != c ==> !m.equivalent(b, c)
}

/// A quotient is reduced and closed.
pub proof fn lemma_quotient_shape(d: DfaView, m: DfaView, cls: Map<State, State>)
    requires
        d.useful(d.start),
        is_quotient(d, m, cls),
    ensures
        is_reduced(m),
        is_closed_numbering(m),
{
    lemma_quotient_is_reduced(d, m, cls);
    assert(d.useful(d.start) && cls[d.start] == m.start);
    assert forall|c: State| m.accept.contains(c) implies m.states.contains(c) by {
        let s = choose|s: State| d.useful(s) && d.accept.contains(s) && #[trigger] cls[s] == c;
        assert(d.useful(s) && cls[s] == c);
    }
    assert forall|c: State, a: Symbol| #[trigger] m.delta.dom().contains((c, a)) implies m.states.contains(c)
        && m.states.contains(m.delta[(c, a)]) by {
        let s = choose|s: State| d.useful(s) && #[trigger] cls[s] == c;
        assert(m.step(cls[s], a) == match useful_step(d, s, a) {
            Some(t) => Some(cls[t]),
            None => None,
        });
        let t = useful_step(d, s, a).unwrap();
        assert(d.useful(t) && cls[t] == m.delta[(c, a)]);
    }
}

/// The quotient of a reduced, closed automaton is that automaton.
pub proof fn lemma_quotient_of_reduced(m1: DfaView, m2: DfaView, cls2: Map<State, State>)
    requires
        is_reduced(m1),
        is_closed_numbering(m1),
        is_quotient(m1, m2, cls2),
    ensures
        m2 == m1,
{
    assert forall|c: State| m1.states.contains(c) implies #[trigger] cls2[c] == c by {
        lemma_identity_numbering(m1, m2, cls2, c);
    }
    assert(m2.states =~= m1.states) by {
        assert forall|c: State| m2.states.contains(c) <==> m1.states.contains(c) by {
            if m2.states.contains(c) {
                let s = choose|s: State| m1.useful(s) && #[trigger] cls2[s] == c;
                assert(m1.states.contains(s));
            }
            if m1.states.contains(c) {
                assert(m1.useful(c) && cls2[c] == c);
            }
        }
    }
    assert(m2.accept =~= m1.accept) by {
        assert forall|c: State| m2.accept.contains(c) <==> m1.accept.contains(c) by {
            if m2.accept.contains(c) {
                let s = choose|s: State| m1.useful(s) && m1.accept.contains(s) && #[trigger] cls2[s] == c;
                assert(m1.states.contains(s));
            }
            if m1.accept.contains(c) {
                assert(m1.states.contains(c));
                assert(m1.useful(c) && m1.accept.contains(c) && cls2[c] == c);
            }
        }
    }
    assert(m2.start == m1.start);
    assert(m2.delta =~= m1.delta) by {
        assert forall|k: (State, Symbol)| m2.delta.dom().contains(k) <==> m1.delta.dom().contains(k) by {
            lemma_identity_step(m1, m2, cls2, k.0, k.1);
        }
        assert forall|k: (State, Symbol)| m2.delta.dom().contains(k) implies m2.delta[k] == m1.delta[k] by {
            lemma_identity_step(m1, m2, cls2, k.0, k.1);
        }
    }
}

/// Minimizing a minimal form gives it back: state for state, and so with the
/// same number of states.
pub proof fn lemma_minimize_idempotent(d: DfaView, m1: DfaView, m2: DfaView)
    requires
        is_minimization(d, m1),
        is_minimization(m1, m2),
    ensures
        m2 == m1,
        m2.states.len() == m1.states.len(),
{
    if d.useful(d.start) {
        let cls1 = choose|cls: Map<State, State>| is_quotient(d, m1, cls);
        lemma_quotient_shape(d, m1, cls1);
        assert(m1.useful(m1.start));
        let cls2 = choose|cls: Map<State, State>| is_quotient(m1, m2, cls);
        lemma_quotient_of_reduced(m1, m2, cls2);
    } else {
        if m1.live(m1.start) {
            m1.lemma_path_from(m1.start);
        }
    }
}

/// Where no two useful states are equivalent, the numbering of classes is the
/// numbering of the states themselves.
proof fn lemma_identity_numbering(m1: DfaView, m2: DfaView, cls2: Map<State, State>, c: State)
    requires
        is_quotient(m1, m2, cls2),
        is_reduced(m1),
        is_closed_numbering(m1),
        m1.states.contains(c),
    ensures
        cls2[c] == c,
    decreases c,
{
    // Smaller states are numbered by themselves, so the number of `c` is not smaller than `c`.
    assert forall|b: State| b < c implies #[trigger] cls2[b] == b by {
        assert(m1.states.contains(b));
        lemma_identity_numbering(m1, m2, cls2, b);
    }
    assert(m1.equivalent(c, c));
    if cls2[c] < c {
        let b = cls2[c];
        assert(cls2[b] == cls2[c]);
        assert(m1.equivalent(b, c));
        assert(false);
    }
    if cls2[c] > c {
        // Then `c` itself numbers some other state, which must come before `c`.
        assert(m1.useful(c) && cls2[c] == cls2[c]);
        assert(m2.states.contains(cls2[c]));
        assert(m2.states.contains(c));
        let x = choose|x: State| m1.useful(x) && #[trigger] cls2[x] == c;
        assert(cls2[x] < cls2[c]);
        assert(class_starts_before(m1, cls2, x, c));
        let r = choose|r: State| m1.useful(r) && #[trigger] cls2[r] == cls2[x] && r < c;
        assert(cls2[r] == r);
        assert(false);
    }
}

proof fn lemma_identity_step(m1: DfaView, m2: DfaView, cls2: Map<State, State>, c: State, a: Symbol)
    requires
        is_reduced(m1),
        is_closed_numbering(m1),
        is_quotient(m1, m2, cls2),
        forall|c: State| m1.states.contains(c) ==> #[trigger] cls2[c] == c,
        m2.states == m1.states,
    ensures
        m2.step(c, a) == m1.step(c, a),
{
    if m1.states.contains(c) {
        assert(m2.step(cls2[c], a) == match useful_step(m1, c, a) {
            Some(t) => Some(cls2[t]),
            None => None,
        });
        if m1.step(c, a) is Some {
            assert(m1.delta.dom().contains((c, a)));
            assert(m1.states.contains(m1.step(c, a).unwrap()));
        }
    } else {
        assert(!m1.delta.dom().contains((c, a)));
        assert(!m2.delta.dom().contains((c, a)));
    }
}

/// Two numberings of the classes agree on which of two classes comes first.
proof fn lemma_same_order(
    d: DfaView,
    m1: DfaView,
    cls1: Map<State, State>,
    m2: DfaView,
    cls2: Map<State, State>,
    s: State,
    u: State,
)
    requires
        is_quotient(d, m1, cls1),
        is_quotient(d, m2, cls2),
        d.useful(s),
        d.useful(u),
        cls1[s] < cls1[u],
    ensures
        cls2[s] < cls2[u],
    decreases u,
{
    if cls2[s] == cls2[u] {
        assert(d.equivalent(s, u));
        assert(cls1[s] == cls1[u]);
    }
    if cls2[u] < cls2[s] {
        // The class of `s` has a member `r` below `u`, and the class of `u` a member `v` below `r`.
        assert(class_starts_before(d, cls1, s, u));
        let r = choose|r: State| d.useful(r) && #[trigger] cls1[r] == cls1[s] && r < u;
        assert(d.equivalent(r, s));
        assert(cls2[r] == cls2[s]);
        assert(class_starts_before(d, cls2, u, r));
        let v = choose|v: State| d.useful(v) && #[trigger] cls2[v] == cls2[u] && v < r;
        assert(d.equivalent(v, u));
        assert(cls1[v] == cls1[u]);
        lemma_same_order(d, m1, cls1, m2, cls2, r, v);
    }
}

/// Two numberings of the classes give every useful state the same number.
proof fn lemma_same_number(
    d: DfaView,
    m1: DfaView,
    cls1: Map<State, State>,
    m2: DfaView,
    cls2: Map<State, State>,
    s: State,
)
    requires
        is_quotient(d, m1, cls1),
        is_quotient(d, m2, cls2),
        d.useful(s),
    ensures
        cls1[s] == cls2[s],
    decreases cls1[s],
{
    let c = cls1[s];
    assert(d.useful(s) && cls1[s] == c);
    assert(m1.states.contains(c));
    assert(d.useful(s) && cls2[s] == cls2[s]);
    assert(m2.states.contains(cls2[s]));
    if cls2[s] < c {
        let b = cls2[s];
        assert(m1.states.contains(b));
        let t = choose|t: State| d.useful(t) && #[trigger] cls1[t] == b;
        lemma_same_number(d, m1, cls1, m2, cls2, t);
        assert(cls2[t] == cls2[s]);
        assert(d.equivalent(t, s));
        assert(cls1[t] == cls1[s]);
    }
    if cls2[s] > c {
        assert(m2.states.contains(c));
        let u = choose|u: State| d.useful(u) && #[trigger] cls2[u] == c;
        if cls1[u] < c {
            lemma_same_number(d, m1, cls1, m2, cls2, u);
        } else if cls1[u] == c {
            assert(d.equivalent(u, s));
            assert(cls2[u] == cls2[s]);
        } else {
            lemma_same_order(d, m1, cls1, m2, cls2, s, u);
        }
    }
}

/// An automaton has one minimal form only.
pub proof fn lemma_minimization_unique(d: DfaView, m1: DfaView, m2: DfaView)
    requires
        is_minimization(d, m1),
        is_minimization(d, m2),
    ensures
        m1 == m2,
{
    if d.useful(d.start) {
        let cls1 = choose|cls: Map<State, State>| is_quotient(d, m1, cls);
        let cls2 = choose|cls: Map<State, State>| is_quotient(d, m2, cls);
        assert(cls1 =~= cls2) by {
            assert forall|s: State| cls1.dom().contains(s) implies #[trigger] cls1[s] == cls2[s] by {
                lemma_same_number(d, m1, cls1, m2, cls2, s);
            }
        }
        lemma_quotient_unique(d, m1, m2, cls1);
    }
}

/// A numbering of the classes leaves no choice for the quotient.
proof fn lemma_quotient_unique(d: DfaView, m1: DfaView, m2: DfaView, cls: Map<State, State>)
    requires
        is_quotient(d, m1, cls),
        is_quotient(d, m2, cls),
    ensures
        m1 == m2,
{
    assert(m1.delta =~= m2.delta) by {
        assert forall|k: (State, Symbol)| m1.delta.dom().contains(k) <==> m2.delta.dom().contains(k) by {
            lemma_quotient_step_unique(d, m1, m2, cls, k.0, k.1);
        }
        assert forall|k: (State, Symbol)| m1.delta.dom().contains(k) implies m1.delta[k] == m2.delta[k] by {
            lemma_quotient_step_unique(d, m1, m2, cls, k.0, k.1);
        }
    }
}

proof fn lemma_quotient_step_unique(
    d: DfaView,
    m1: DfaView,
    m2: DfaView,
    cls: Map<State, State>,
    c: State,
    a: Symbol,
)
    requires
        is_quotient(d, m1, cls),
        is_quotient(d, m2, cls),
    ensures
        m1.step(c, a) == m2.step(c, a),
{
    if m1.states.contains(c) {
        let s = choose|s: State| d.useful(s) && #[trigger] cls[s] == c;
        assert(m1.step(cls[s], a) == match useful_step(d, s, a) {
            Some(t) => Some(cls[t]),
            None => None,
        });
        assert(m2.step(cls[s], a) == match useful_step(d, s, a) {
            Some(t) => Some(cls[t]),
            None => None,
        });
    } else {
        assert(!m1.delta.dom().contains((c, a)));
        assert(!m2.delta.dom().contains((c, a)));
    }
}

} // verus!
