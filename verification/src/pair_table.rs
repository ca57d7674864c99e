//! A table of marks on the unordered pairs of the indices `0..n`.

use vstd::prelude::*;

verus! {

/// Marks on unordered pairs of distinct indices. A mark can be set and is never taken back.
pub struct PairTable {
    cells: Vec<Vec<bool>>,
    pending: Ghost<Set<(int, int)>>,
}

impl PairTable {
    /// The number of indices.
    pub closed spec fn size(self) -> nat {
        self.cells@.len()
    }

    /// The representation invariant: the table is square, and the pairs still
    /// unmarked are accounted for.
    pub closed spec fn wf(self) -> bool {
        &&& forall|i: int| 0 <= i < self.cells@.len() ==> (#[trigger] self.cells@[i])@.len() == self.cells@.len()
        &&& self.pending@.finite()
        &&& forall|i: int, j: int| #[trigger]
            self.pending@.contains((i, j)) ==> 0 <= i < j < self.cells@.len()
        &&& forall|i: int, j: int|
            0 <= i < j < self.cells@.len() ==> (self.pending@.contains((i, j)) <==> !(#[trigger] self.cells@[i]@[j]))
    }

    /// Whether the pair `{i, j}` is marked. A pair of equal indices never is.
    pub closed spec fn marked(self, i: int, j: int) -> bool {
        if i < j {
            self.cells@[i]@[j]
        } else if j < i {
            self.cells@[j]@[i]
        } else {
            false
        }
    }

    /// The number of pairs not yet marked.
    pub closed spec fn unmarked_count(self) -> nat {
        self.pending@.len()
    }

    /// Marks do not depend on the order in which a pair is named.
    pub proof fn lemma_symmetric(self, i: int, j: int)
        ensures
            self.marked(i, j) == self.marked(j, i),
            !self.marked(i, i),
    {
    }

    /// A table on `n` indices without any mark.
    pub fn new(n: usize) -> (t: PairTable)
        ensures
            t.wf(),
            t.size() == n,
            forall|i: int, j: int| 0 <= i < n && 0 <= j < n ==> !t.marked(i, j),
    {
        let mut cells: Vec<Vec<bool>> = Vec::new();
        let ghost mut pending: Set<(int, int)> = Set::empty();
        let mut i: usize = 0;
        while i < n
            invariant
                i <= n,
                cells@.len() == i,
                forall|a: int| 0 <= a < i ==> (#[trigger] cells@[a])@.len() == n,
                forall|a: int, b: int| 0 <= a < i && 0 <= b < n ==> !(#[trigger] cells@[a]@[b]),
                pending.finite(),
                forall|a: int, b: int| #[trigger] pending.contains((a, b)) <==> (0 <= a < i && a < b < n),
            decreases n - i,
        {
            let mut row: Vec<bool> = Vec::new();
            let mut j: usize = 0;
            while j < n
                invariant
                    i < n,
                    j <= n,
                    row@.len() == j,
                    forall|b: int| 0 <= b < j ==> !row@[b],
                    pending.finite(),
                    forall|a: int, b: int| #[trigger]
                        pending.contains((a, b)) <==> ((0 <= a < i && a < b < n) || (a == i && i < b < j)),
                decreases n - j,
            {
                row.push(false);
                proof {
                    if i < j {
                        pending = pending.insert((i as int, j as int));
                    }
                }
                j = j + 1;
            }
            cells.push(row);
            i = i + 1;
        }
        PairTable { cells, pending: Ghost(pending) }
    }

    /// Whether the pair `{i, j}` is marked.
    pub fn is_marked(&self, i: usize, j: usize) -> (b: bool)
        requires
            self.wf(),
            i < self.size(),
            j < self.size(),
        ensures
            b == self.marked(i as int, j as int),
    {
        if i < j {
            self.cells[i][j]
        } else if j < i {
            self.cells[j][i]
        } else {
            false
        }
    }

    /// Marks the pair `{i, j}`.
    pub fn mark(&mut self, i: usize, j: usize)
        requires
            old(self).wf(),
            i < old(self).size(),
            j < old(self).size(),
            i != j,
        ensures
            final(self).wf(),
            final(self).size() == old(self).size(),
            forall|a: int, b: int|
                0 <= a < old(self).size() && 0 <= b < old(self).size() ==> (#[trigger] final(self).marked(a, b)
                    <==> (old(self).marked(a, b) || (a == i && b == j) || (a == j && b == i))),
            old(self).marked(i as int, j as int) ==> final(self).unmarked_count() == old(self).unmarked_count(),
            !old(self).marked(i as int, j as int) ==> final(self).unmarked_count() < old(self).unmarked_count(),
    {
        let lo: usize = if i < j { i } else { j };
        let hi: usize = if i < j { j } else { i };
        let ghost before = self.pending@;
        assert(before.contains((lo as int, hi as int)) <==> !self.cells@[lo as int]@[hi as int]);
        self.cells[lo][hi] = true;
        proof {
            self.pending = Ghost(before.remove((lo as int, hi as int)));
        }
    }
}

} // verus!
