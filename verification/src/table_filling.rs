//! The table-filling argument: which pairs of useful states a word tells apart.
//!
//! The useful states are listed in increasing order and named by their
//! position in that list, so that the tables are dense.

use crate::dfa::DfaView;
use crate::minimal_form::useful_step;
use crate::pair_table::PairTable;
use crate::state_set::{strictly_increasing, State, Symbol};
use vstd::prelude::*;

verus! {

/// `u` lists the useful states of `d` in increasing order.
pub open spec fn lists_useful(d: DfaView, u: Seq<State>) -> bool {
    &&& strictly_increasing(u)
    &&& forall|s: State| u.contains(s) <==> d.useful(s)
}

/// `next[i][k]` is the position of the state that the `i`-th useful state
/// goes to on the `k`-th symbol, or `None` where it has no transition into a
/// useful state.
pub open spec fn dense_steps(d: DfaView, u: Seq<State>, next: Seq<Seq<Option<usize>>>) -> bool {
    &&& next.len() == u.len()
    &&& forall|i: int| 0 <= i < next.len() ==> (#[trigger] next[i]).len() == d.alphabet.len()
    &&& forall|i: int, k: int|
        0 <= i < u.len() && 0 <= k < d.alphabet.len() ==> match #[trigger] next[i][k] {
            Some(p) => p < u.len() && useful_step(d, u[i], d.alphabet[k]) == Some(u[p as int]),
            None => useful_step(d, u[i], d.alphabet[k]) is None,
        }
}

/// `accepting[i]` says whether the `i`-th useful state is accepting.
pub open spec fn dense_accepting(d: DfaView, u: Seq<State>, accepting: Seq<bool>) -> bool {
    &&& accepting.len() == u.len()
    &&& forall|i: int| 0 <= i < u.len() ==> #[trigger] accepting[i] == d.accept.contains(u[i])
}

/// Every marked pair is a pair of states that some word tells apart.
pub open spec fn marks_sound(d: DfaView, u: Seq<State>, t: PairTable) -> bool {
    forall|i: int, j: int|
        0 <= i < u.len() && 0 <= j < u.len() && #[trigger] t.marked(i, j) ==> !d.equivalent(u[i], u[j])
}

/// Unmarked pairs agree on acceptance.
pub open spec fn marks_split_accepting(accepting: Seq<bool>, t: PairTable) -> bool {
    forall|i: int, j: int|
        0 <= i < accepting.len() && 0 <= j < accepting.len() && !#[trigger] t.marked(i, j) ==> accepting[i]
            == accepting[j]
}

/// Two transitions on one symbol do not tell their sources apart: both are
/// missing, or both are there and their destinations form no marked pair.
pub open spec fn steps_agree(a: Option<usize>, b: Option<usize>, t: PairTable) -> bool {
    match (a, b) {
        (None, None) => true,
        (Some(p), Some(q)) => !t.marked(p as int, q as int),
        _ => false,
    }
}

/// The rows `i` and `j` agree on the first `upto` symbols.
pub open spec fn rows_agree(next: Seq<Seq<Option<usize>>>, t: PairTable, i: int, j: int, upto: int) -> bool {
    forall|k: int| 0 <= k < upto ==> #[trigger] steps_agree(next[i][k], next[j][k], t)
}

/// No further pair can be marked: the rows of every unmarked pair agree on all symbols.
pub open spec fn marks_stable(next: Seq<Seq<Option<usize>>>, t: PairTable, symbols: int) -> bool {
    forall|i: int, j: int|
        0 <= i < j < next.len() && !#[trigger] t.marked(i, j) ==> rows_agree(next, t, i, j, symbols)
}

/// Equivalence of states is symmetric and transitive.
pub proof fn lemma_equivalent_chain(d: DfaView, r: State, s: State, t: State)
    requires
        d.equivalent(r, s),
        d.equivalent(s, t),
    ensures
        d.equivalent(r, t),
        d.equivalent(s, r),
        d.equivalent(r, r),
{
    assert forall|w: Seq<Symbol>| d.accepts_from(r, w) == d.accepts_from(t, w) by {
        assert(d.accepts_from(r, w) == d.accepts_from(s, w));
        assert(d.accepts_from(s, w) == d.accepts_from(t, w));
    }
    assert forall|w: Seq<Symbol>| d.accepts_from(s, w) == d.accepts_from(r, w) by {
        assert(d.accepts_from(r, w) == d.accepts_from(s, w));
    }
}

/// The rows of a table, as sequences.
pub open spec fn rows<T>(table: Seq<Vec<T>>) -> Seq<Seq<T>> {
    Seq::new(table.len(), |i: int| table[i]@)
}

/// States of which one is accepting and the other is not are told apart by the empty word.
pub proof fn lemma_acceptance_tells_apart(d: DfaView, s: State, t: State)
    requires
        d.accept.contains(s) != d.accept.contains(t),
    ensures
        !d.equivalent(s, t),
{
    let e = Seq::<Symbol>::empty();
    assert(d.accepts_from(s, e) != d.accepts_from(t, e));
}

/// States whose transitions on one symbol lead to states that a word tells
/// apart are told apart by that symbol and that word.
pub proof fn lemma_successors_tell_apart(d: DfaView, s: State, t: State, a: Symbol)
    requires
        d.step(s, a) is Some,
        d.step(t, a) is Some,
        !d.equivalent(d.step(s, a).unwrap(), d.step(t, a).unwrap()),
    ensures
        !d.equivalent(s, t),
{
    let x = d.step(s, a).unwrap();
    let y = d.step(t, a).unwrap();
    let w = choose|w: Seq<Symbol>| d.accepts_from(x, w) != d.accepts_from(y, w);
    d.lemma_run_cons(s, a, w);
    d.lemma_run_cons(t, a, w);
    assert(d.accepts_from(s, seq![a] + w) != d.accepts_from(t, seq![a] + w));
}

/// A reachable state with a transition into a useful state is told apart
/// from a reachable state that has none on the same symbol.
pub proof fn lemma_presence_tells_apart(d: DfaView, s: State, t: State, a: Symbol)
    requires
        d.reachable(t),
        useful_step(d, s, a) is Some,
        useful_step(d, t, a) is None,
    ensures
        !d.equivalent(s, t),
        !d.equivalent(t, s),
{
    let x = d.step(s, a).unwrap();
    d.lemma_path_from(x);
    let w = d.path_from(x);
    d.lemma_run_cons(s, a, w);
    d.lemma_run_cons(t, a, w);
    if d.step(t, a) is Some {
        d.lemma_reachable_step(t, a);
        d.lemma_useless_rejects(d.step(t, a).unwrap(), w);
    }
    assert(d.accepts_from(s, seq![a] + w) != d.accepts_from(t, seq![a] + w));
}

/// Once the marks are stable, no word tells an unmarked pair apart.
pub proof fn lemma_unmarked_agree(
    d: DfaView,
    u: Seq<State>,
    next: Seq<Seq<Option<usize>>>,
    accepting: Seq<bool>,
    t: PairTable,
    i: int,
    j: int,
    w: Seq<Symbol>,
)
    requires
        d.wf(),
        lists_useful(d, u),
        dense_steps(d, u, next),
        dense_accepting(d, u, accepting),
        marks_split_accepting(accepting, t),
        marks_stable(next, t, d.alphabet.len() as int),
        0 <= i < u.len(),
        0 <= j < u.len(),
        !t.marked(i, j),
    ensures
        d.accepts_from(u[i], w) == d.accepts_from(u[j], w),
    decreases w.len(), (if j < i { 1int } else { 0int }),
{
    t.lemma_symmetric(i, j);
    if i == j {
    } else if j < i {
        lemma_unmarked_agree(d, u, next, accepting, t, j, i, w);
    } else if w.len() == 0 {
        assert(accepting[i] == accepting[j]);
    } else {
        let a = w[0];
        let rest = w.drop_first();
        assert(u.contains(u[i]) && u.contains(u[j]));
        if d.alphabet.contains(a) {
            let k = choose|k: int| 0 <= k < d.alphabet.len() && d.alphabet[k] == a;
            assert(rows_agree(next, t, i, j, d.alphabet.len() as int));
            assert(steps_agree(next[i][k], next[j][k], t));
            match (next[i][k], next[j][k]) {
                (Some(p), Some(q)) => {
                    lemma_unmarked_agree(d, u, next, accepting, t, p as int, q as int, rest);
                },
                _ => {
                    lemma_no_useful_step_rejects(d, u[i], w);
                    lemma_no_useful_step_rejects(d, u[j], w);
                },
            }
        } else {
            assert(!d.delta.dom().contains((u[i], a)));
            assert(!d.delta.dom().contains((u[j], a)));
        }
    }
}

/// A word whose first step leads a reachable state nowhere useful is not accepted.
pub proof fn lemma_no_useful_step_rejects(d: DfaView, s: State, w: Seq<Symbol>)
    requires
        d.reachable(s),
        w.len() > 0,
        useful_step(d, s, w[0]) is None,
    ensures
        !d.accepts_from(s, w),
{
    if d.step(s, w[0]) is Some {
        d.lemma_reachable_step(s, w[0]);
        d.lemma_useless_rejects(d.step(s, w[0]).unwrap(), w.drop_first());
    }
}

/// Once the marks are sound and stable, the marked pairs are exactly the
/// pairs of states that are not equivalent.
pub proof fn lemma_marks_exact(
    d: DfaView,
    u: Seq<State>,
    next: Seq<Seq<Option<usize>>>,
    accepting: Seq<bool>,
    t: PairTable,
)
    requires
        d.wf(),
        lists_useful(d, u),
        dense_steps(d, u, next),
        dense_accepting(d, u, accepting),
        marks_sound(d, u, t),
        marks_split_accepting(accepting, t),
        marks_stable(next, t, d.alphabet.len() as int),
    ensures
        forall|i: int, j: int|
            0 <= i < u.len() && 0 <= j < u.len() ==> (#[trigger] t.marked(i, j) <==> !d.equivalent(u[i], u[j])),
{
    assert forall|i: int, j: int| 0 <= i < u.len() && 0 <= j < u.len() implies (#[trigger] t.marked(i, j)
        <==> !d.equivalent(u[i], u[j])) by {
        if !t.marked(i, j) {
            assert forall|w: Seq<Symbol>| d.accepts_from(u[i], w) == d.accepts_from(u[j], w) by {
                lemma_unmarked_agree(d, u, next, accepting, t, i, j, w);
            }
        }
    }
}

} // verus!
