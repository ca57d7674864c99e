//! Finite sets of automaton states, kept in canonical (strictly increasing) order.

use std::collections::HashSet;
use vstd::prelude::*;
use vstd::std_specs::hash::{group_hash_axioms, spec_hash_keys_iter};
use vstd::std_specs::iter::IteratorSpec;

verus! {

/// A state is an opaque handle that means something only inside one automaton.
pub type State = u32;

/// An input symbol.
pub type Symbol = char;

/// Every element is smaller than all elements that follow it.
pub open spec fn strictly_increasing(s: Seq<State>) -> bool {
    forall|i: int, j: int| 0 <= i < j < s.len() ==> s[i] < s[j]
}

/// The set has a member.
pub open spec fn inhabited(set: Set<State>) -> bool {
    exists|s: State| set.contains(s)
}

/// The two sets have a member in common.
pub open spec fn meets(a: Set<State>, b: Set<State>) -> bool {
    exists|s: State| a.contains(s) && b.contains(s)
}

/// The sets that a list of state sets stands for.
pub open spec fn set_views(sets: Seq<StateSet>) -> Seq<Set<State>> {
    Seq::new(sets.len(), |i: int| sets[i]@)
}

/// A hash set holds finitely many states.
pub proof fn lemma_hash_set_finite(set: &HashSet<State>)
    ensures
        set@.finite(),
{
    broadcast use group_hash_axioms;

    assert(spec_hash_keys_iter(set).remaining().unref().to_set() == set@);
}

/// Whether `x` is in the hash set.
pub fn has_state(set: &HashSet<State>, x: State) -> (found: bool)
    ensures
        found == set@.contains(x),
{
    broadcast use group_hash_axioms;

    set.contains(&x)
}

/// Adds `x` to the hash set.
pub fn add_state(set: &mut HashSet<State>, x: State)
    ensures
        final(set)@ == old(set)@.insert(x),
{
    broadcast use group_hash_axioms;

    set.insert(x);
}

/// `y` is among the first `upto` of the keys.
pub open spec fn key_before(keys: Seq<&State>, upto: int, y: State) -> bool {
    exists|i: int| 0 <= i < upto && *keys[i] == y
}

/// `s` is among the first `upto` entries of the listing.
pub open spec fn listed_before(listing: Seq<State>, upto: int, s: State) -> bool {
    exists|x: int| 0 <= x < upto && listing[x] == s
}

/// A strictly increasing sequence holds no element twice, so it is as long as
/// the set of its elements is large.
pub proof fn lemma_increasing_len(s: Seq<State>)
    requires
        strictly_increasing(s),
    ensures
        s.no_duplicates(),
        s.to_set().len() == s.len(),
        s.to_set().finite(),
{
    s.unique_seq_to_set();
}

/// A strictly increasing sequence of states never runs past the identifier space.
pub proof fn lemma_increasing_bound(s: Seq<State>, i: int)
    requires
        strictly_increasing(s),
        0 <= i < s.len(),
    ensures
        i <= s[i],
    decreases i,
{
    if i > 0 {
        lemma_increasing_bound(s, i - 1);
    }
}

/// Two strictly increasing sequences with the same elements are the same sequence.
pub proof fn lemma_increasing_unique(a: Seq<State>, b: Seq<State>)
    requires
        strictly_increasing(a),
        strictly_increasing(b),
        a.to_set() == b.to_set(),
    ensures
        a == b,
    decreases a.len(),
{
    lemma_increasing_len(a);
    lemma_increasing_len(b);
    if a.len() > 0 {
        let la = a.last();
        let lb = b.last();
        assert(a.to_set().contains(la));
        assert(b.to_set().contains(lb));
        assert(b.contains(la));
        assert(a.contains(lb));
        assert(la == lb);
        let a0 = a.drop_last();
        let b0 = b.drop_last();
        assert(a0.to_set() =~= b0.to_set()) by {
            assert forall|x: State| a0.to_set().contains(x) <==> b0.to_set().contains(x) by {
                if a0.contains(x) {
                    let i = choose|i: int| 0 <= i < a0.len() && a0[i] == x;
                    assert(a[i] == x);
                    assert(b.to_set().contains(x));
                    let j = choose|j: int| 0 <= j < b.len() && b[j] == x;
                    assert(j < b.len() - 1);
                    assert(b0[j] == x);
                }
                if b0.contains(x) {
                    let i = choose|i: int| 0 <= i < b0.len() && b0[i] == x;
                    assert(b[i] == x);
                    assert(a.to_set().contains(x));
                    let j = choose|j: int| 0 <= j < a.len() && a[j] == x;
                    assert(j < a.len() - 1);
                    assert(a0[j] == x);
                }
            }
        }
        lemma_increasing_unique(a0, b0);
        assert(a =~= a0.push(la));
        assert(b =~= b0.push(lb));
    } else {
        assert(b.len() == 0);
        assert(a =~= b);
    }
}

/// A finite set of states.
///
/// The elements are stored once each, in increasing order, so that equal sets
/// always have equal representations.
#[derive(Debug, PartialEq, Eq)]
pub struct StateSet {
    elems: Vec<State>,
}

impl View for StateSet {
    type V = Set<State>;

    closed spec fn view(&self) -> Set<State> {
        self.elems@.to_set()
    }
}

impl StateSet {
    #[verifier::type_invariant]
    pub closed spec fn wf(self) -> bool {
        strictly_increasing(self.elems@)
    }

    /// The elements in increasing order.
    pub closed spec fn seq(self) -> Seq<State> {
        self.elems@
    }

    /// What the ordered listing and the set have to do with each other.
    pub proof fn lemma_seq(self)
        requires
            self.wf(),
        ensures
            strictly_increasing(self.seq()),
            self.seq().to_set() == self@,
            self.seq().len() == self@.len(),
            self.seq().len() <= 0x1_0000_0000,
            self@.finite(),
            forall|i: int| 0 <= i < self.seq().len() ==> self@.contains(#[trigger] self.seq()[i]),
    {
        lemma_increasing_len(self.elems@);
        if self.elems@.len() > 0 {
            lemma_increasing_bound(self.elems@, self.elems@.len() - 1);
        }
        assert forall|i: int| 0 <= i < self.seq().len() implies self@.contains(
            #[trigger] self.seq()[i],
        ) by {
            assert(self.elems@.contains(self.elems@[i]));
        }
    }

    /// The listing holds exactly the elements, in increasing order.
    pub proof fn lemma_listing(&self)
        ensures
            forall|x: State| self.seq().contains(x) <==> self@.contains(x),
    {
    }

    /// A set of states is finite.
    pub proof fn lemma_finite(self)
        ensures
            self@.finite(),
    {
    }

    /// Sets with the same elements are listed in the same order.
    pub proof fn lemma_seq_unique(self, other: StateSet)
        requires
            self.wf(),
            other.wf(),
            self@ == other@,
        ensures
            self.seq() == other.seq(),
    {
        lemma_increasing_unique(self.elems@, other.elems@);
    }

    /// The empty set.
    pub fn new() -> (s: StateSet)
        ensures
            s@ == Set::<State>::empty(),
            s.wf(),
    {
        let s = StateSet { elems: Vec::new() };
        assert(s.elems@.to_set() =~= Set::<State>::empty());
        s
    }

    /// The number of elements.
    pub fn len(&self) -> (n: usize)
        ensures
            n == self@.len(),
            n == self.seq().len(),
            self@.finite(),
    {
        proof {
            use_type_invariant(self);
            self.lemma_seq();
        }
        self.elems.len()
    }

    /// Whether the set has no element.
    pub fn is_empty(&self) -> (b: bool)
        ensures
            b == (self@ == Set::<State>::empty()),
    {
        proof {
            use_type_invariant(self);
            self.lemma_seq();
            if self.elems@.len() > 0 {
                assert(self@.contains(self.seq()[0]));
            } else {
                assert(self@ =~= Set::<State>::empty());
            }
        }
        self.elems.len() == 0
    }

    /// The `i`-th smallest element.
    pub fn get(&self, i: usize) -> (x: State)
        requires
            i < self.seq().len(),
        ensures
            x == self.seq()[i as int],
            self@.contains(x),
    {
        proof {
            use_type_invariant(self);
            self.lemma_seq();
        }
        self.elems[i]
    }

    /// The number of elements smaller than `x`, which is where `x` stands or would stand.
    fn position(&self, x: State) -> (k: usize)
        ensures
            k <= self.elems@.len(),
            forall|i: int| 0 <= i < k ==> self.elems@[i] < x,
            forall|i: int| k <= i < self.elems@.len() ==> x <= self.elems@[i],
    {
        proof {
            use_type_invariant(self);
        }
        let mut lo: usize = 0;
        let mut hi: usize = self.elems.len();
        while lo < hi
            invariant
                lo <= hi <= self.elems@.len(),
                strictly_increasing(self.elems@),
                forall|i: int| 0 <= i < lo ==> self.elems@[i] < x,
                forall|i: int| hi <= i < self.elems@.len() ==> x <= self.elems@[i],
            decreases hi - lo,
        {
            let mid: usize = lo + (hi - lo) / 2;
            if self.elems[mid] < x {
                lo = mid + 1;
            } else {
                hi = mid;
            }
        }
        lo
    }

    /// Whether `x` is an element.
    pub fn contains(&self, x: State) -> (b: bool)
        ensures
            b == self@.contains(x),
    {
        proof {
            use_type_invariant(self);
        }
        let k = self.position(x);
        let found = k < self.elems.len() && self.elems[k] == x;
        proof {
            if found {
                assert(self.elems@.contains(x));
            } else if self.elems@.contains(x) {
                let i = choose|i: int| 0 <= i < self.elems@.len() && self.elems@[i] == x;
                assert(false);
            }
        }
        found
    }

    /// The position of `x` in the increasing listing of the elements, if it is one of them.
    pub fn index_of(&self, x: State) -> (at: Option<usize>)
        ensures
            match at {
                Some(i) => i < self.seq().len() && self.seq()[i as int] == x,
                None => !self@.contains(x),
            },
    {
        proof {
            use_type_invariant(self);
        }
        let k = self.position(x);
        if k < self.elems.len() && self.elems[k] == x {
            Some(k)
        } else {
            proof {
                if self.elems@.contains(x) {
                    let i = choose|i: int| 0 <= i < self.elems@.len() && self.elems@[i] == x;
                    assert(false);
                }
            }
            None
        }
    }

    /// The set of the elements of `v`.
    pub fn from_vec(v: &Vec<State>) -> (s: StateSet)
        ensures
            s@ == v@.to_set(),
    {
        let mut s = StateSet::new();
        let mut i: usize = 0;
        while i < v.len()
            invariant
                i <= v@.len(),
                s@ == v@.take(i as int).to_set(),
            decreases v@.len() - i,
        {
            s.insert(v[i]);
            proof {
                let before = v@.take(i as int);
                let after = v@.take(i + 1);
                assert(after =~= before.push(v@[i as int]));
                assert(after.to_set() =~= before.to_set().insert(v@[i as int])) by {
                    assert forall|x: State| after.to_set().contains(x) <==> before.to_set().insert(
                        v@[i as int],
                    ).contains(x) by {
                        if after.contains(x) {
                            let k = choose|k: int| 0 <= k < after.len() && after[k] == x;
                            if k < i {
                                assert(before[k] == x);
                            }
                        }
                        if before.contains(x) {
                            let k = choose|k: int| 0 <= k < before.len() && before[k] == x;
                            assert(after[k] == x);
                        }
                        if x == v@[i as int] {
                            assert(after[i as int] == x);
                        }
                    }
                }
            }
            i = i + 1;
        }
        assert(v@.take(v@.len() as int) =~= v@);
        s
    }

    /// The elements in increasing order.
    pub fn to_vec(&self) -> (v: Vec<State>)
        ensures
            v@ == self.seq(),
            v@.to_set() == self@,
    {
        let copy = self.clone();
        copy.elems
    }

    /// Whether both sets have the same elements.
    pub fn equals(&self, other: &StateSet) -> (same: bool)
        ensures
            same == (self@ == other@),
    {
        proof {
            use_type_invariant(self);
            use_type_invariant(other);
        }
        if self.elems.len() != other.elems.len() {
            proof {
                if self@ == other@ {
                    lemma_increasing_unique(self.elems@, other.elems@);
                }
            }
            return false;
        }
        let mut i: usize = 0;
        while i < self.elems.len()
            invariant
                self.elems@.len() == other.elems@.len(),
                i <= self.elems@.len(),
                forall|k: int| 0 <= k < i ==> self.elems@[k] == other.elems@[k],
                strictly_increasing(self.elems@),
                strictly_increasing(other.elems@),
            decreases self.elems@.len() - i,
        {
            if self.elems[i] != other.elems[i] {
                proof {
                    if self@ == other@ {
                        lemma_increasing_unique(self.elems@, other.elems@);
                    }
                }
                return false;
            }
            i = i + 1;
        }
        assert(self.elems@ =~= other.elems@);
        true
    }

    /// The set with the elements of a hash set.
    pub fn from_hash_set(set: &HashSet<State>) -> (s: StateSet)
        ensures
            s@ == set@,
            set@.finite(),
    {
        broadcast use group_hash_axioms;

        let mut s = StateSet::new();
        for x in iter: set.iter()
            invariant
                forall|y: State| #[trigger] s@.contains(y) <==> key_before(iter.seq(), iter.index() as int, y),
                iter.seq().unref().to_set() == set@,
                iter.index() == iter.seq().len() ==> s@ == set@,
        {
            s.insert(*x);
            assert forall|y: State| #[trigger] s@.contains(y) <==> key_before(
                iter.seq(),
                iter.index() + 1,
                y,
            ) by {
                let keys = iter.seq();
                let at = iter.index() as int;
                if key_before(keys, at, y) {
                    let i = choose|i: int| 0 <= i < at && *keys[i] == y;
                    assert(0 <= i < at + 1 && *keys[i] == y);
                }
                if y == *x {
                    assert(0 <= at < at + 1 && *keys[at] == y);
                }
                if key_before(keys, at + 1, y) {
                    let i = choose|i: int| 0 <= i < at + 1 && *keys[i] == y;
                    if i < at {
                        assert(key_before(keys, at, y));
                    }
                }
            }
            assert(iter.index() + 1 == iter.seq().len() ==> s@ =~= set@) by {
                let keys = iter.seq();
                let at = iter.index() as int;
                if at + 1 == keys.len() {
                    assert forall|y: State| s@.contains(y) <==> set@.contains(y) by {
                        if s@.contains(y) {
                            let i = choose|i: int| 0 <= i < at + 1 && *keys[i] == y;
                            assert(keys.unref()[i] == y);
                            assert(keys.unref().contains(y));
                        }
                        if set@.contains(y) {
                            assert(keys.unref().contains(y));
                            let i = choose|i: int| 0 <= i < keys.unref().len() && keys.unref()[i] == y;
                            assert(*keys[i] == y);
                            assert(key_before(keys, at + 1, y));
                        }
                    }
                }
            }
        }
        proof {
            s.lemma_finite();
        }
        s
    }

    /// The hash set with the elements of the set.
    pub fn to_hash_set(&self) -> (set: HashSet<State>)
        ensures
            set@ == self@,
            set@.finite(),
    {
        broadcast use group_hash_axioms;

        let mut set: HashSet<State> = HashSet::new();
        let mut i: usize = 0;
        while i < self.len()
            invariant
                i <= self.seq().len(),
                forall|y: State| #[trigger] set@.contains(y) <==> listed_before(self.seq(), i as int, y),
            decreases self.seq().len() - i,
        {
            let x = self.get(i);
            let ghost before = set@;
            set.insert(x);
            proof {
                let listing = self.seq();
                assert forall|y: State| #[trigger] set@.contains(y) <==> listed_before(listing, i + 1, y) by {
                    if listed_before(listing, i as int, y) {
                        let k = choose|k: int| 0 <= k < i && listing[k] == y;
                        assert(0 <= k < i + 1 && listing[k] == y);
                    }
                    if y == x {
                        assert(0 <= i < i + 1 && listing[i as int] == y);
                    }
                    if listed_before(listing, i + 1, y) {
                        let k = choose|k: int| 0 <= k < i + 1 && listing[k] == y;
                        if k < i {
                            assert(listed_before(listing, i as int, y));
                        }
                    }
                }
            }
            i = i + 1;
        }
        proof {
            self.lemma_listing();
            self.lemma_finite();
            assert(set@ =~= self@) by {
                assert forall|y: State| set@.contains(y) <==> self@.contains(y) by {
                    if set@.contains(y) {
                        let k = choose|k: int| 0 <= k < i && self.seq()[k] == y;
                        assert(self.seq().contains(self.seq()[k]));
                    }
                    if self@.contains(y) {
                        assert(self.seq().contains(y));
                        let k = choose|k: int| 0 <= k < self.seq().len() && self.seq()[k] == y;
                        assert(listed_before(self.seq(), i as int, y));
                    }
                }
            }
        }
        set
    }

    /// Whether the set has a member in common with a hash set.
    pub fn meets(&self, other: &HashSet<State>) -> (common: bool)
        ensures
            common == meets(self@, other@),
    {
        broadcast use group_hash_axioms;

        let mut i: usize = 0;
        while i < self.len()
            invariant
                i <= self.seq().len(),
                forall|x: int| 0 <= x < i ==> !other@.contains(#[trigger] self.seq()[x]),
            decreases self.seq().len() - i,
        {
            let x = self.get(i);
            if other.contains(&x) {
                assert(self@.contains(x) && other@.contains(x));
                return true;
            }
            i = i + 1;
        }
        proof {
            self.lemma_listing();
            assert forall|s: State| self@.contains(s) implies !other@.contains(s) by {
                assert(self.seq().contains(s));
            }
        }
        false
    }

    /// The set of the first `n` state identifiers.
    pub fn first(n: usize) -> (states: StateSet)
        requires
            n <= 0x1_0000_0000,
        ensures
            forall|c: State| states@.contains(c) <==> c < n,
    {
        let mut states = StateSet::new();
        let mut i: usize = 0;
        while i < n
            invariant
                i <= n <= 0x1_0000_0000,
                forall|c: State| states@.contains(c) <==> c < i,
            decreases n - i,
        {
            states.insert(i as State);
            i = i + 1;
        }
        states
    }

    /// Adds `x`; says whether it was new.
    pub fn insert(&mut self, x: State) -> (fresh: bool)
        ensures
            final(self)@ == old(self)@.insert(x),
            fresh == !old(self)@.contains(x),
    {
        proof {
            use_type_invariant(&*self);
        }
        let k = self.position(x);
        if k < self.elems.len() && self.elems[k] == x {
            proof {
                assert(self.elems@.contains(x));
                assert(self@ =~= self@.insert(x));
            }
            false
        } else {
            let ghost before = self.elems@;
            let mut taken = StateSet { elems: Vec::new() };
            core::mem::swap(self, &mut taken);
            let mut elems = taken.elems;
            elems.insert(k, x);
            proof {
                let after = elems@;
                assert(after == before.insert(k as int, x));
                assert(strictly_increasing(after)) by {
                    assert forall|i: int, j: int| 0 <= i < j < after.len() implies after[i]
                        < after[j] by {
                        if j < k {
                            assert(after[i] == before[i] && after[j] == before[j]);
                        } else if j == k {
                            assert(after[i] == before[i]);
                        } else if i < k {
                            assert(after[i] == before[i] && after[j] == before[j - 1]);
                        } else if i == k {
                            assert(after[j] == before[j - 1]);
                        } else {
                            assert(after[i] == before[i - 1] && after[j] == before[j - 1]);
                        }
                    }
                }
                if before.contains(x) {
                    let i = choose|i: int| 0 <= i < before.len() && before[i] == x;
                    assert(false);
                }
                assert(after.to_set() =~= before.to_set().insert(x)) by {
                    assert forall|y: State| after.to_set().contains(y) <==> before.to_set().insert(
                        x,
                    ).contains(y) by {
                        if after.contains(y) {
                            let i = choose|i: int| 0 <= i < after.len() && after[i] == y;
                            if i < k {
                                assert(before[i] == y);
                            } else if i > k {
                                assert(before[i - 1] == y);
                            }
                        }
                        if before.contains(y) {
                            let i = choose|i: int| 0 <= i < before.len() && before[i] == y;
                            if i < k {
                                assert(after[i] == y);
                            } else {
                                assert(after[i + 1] == y);
                            }
                        }
                        if y == x {
                            assert(after[k as int] == y);
                        }
                    }
                }
            }
            *self = StateSet { elems };
            true
        }
    }
}

/// A copy of a list of symbols.
pub fn copy_symbols(symbols: &Vec<Symbol>) -> (copy: Vec<Symbol>)
    ensures
        copy@ == symbols@,
{
    let mut copy: Vec<Symbol> = Vec::new();
    let mut k: usize = 0;
    while k < symbols.len()
        invariant
            k <= symbols@.len(),
            copy@ == symbols@.take(k as int),
        decreases symbols@.len() - k,
    {
        copy.push(symbols[k]);
        assert(symbols@.take(k as int).push(symbols@[k as int]) =~= symbols@.take(k + 1));
        k = k + 1;
    }
    assert(symbols@.take(symbols@.len() as int) =~= symbols@);
    copy
}

impl Clone for StateSet {
    fn clone(&self) -> (copy: StateSet)
        ensures
            copy@ == self@,
            copy.seq() == self.seq(),
    {
        proof {
            use_type_invariant(self);
        }
        let mut elems: Vec<State> = Vec::new();
        let mut i: usize = 0;
        while i < self.elems.len()
            invariant
                i <= self.elems@.len(),
                elems@ == self.elems@.take(i as int),
            decreases self.elems@.len() - i,
        {
            elems.push(self.elems[i]);
            assert(self.elems@.take(i as int).push(self.elems@[i as int]) =~= self.elems@.take(i + 1));
            i = i + 1;
        }
        assert(self.elems@.take(self.elems@.len() as int) =~= self.elems@);
        StateSet { elems }
    }
}

} // verus!
