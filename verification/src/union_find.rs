//! Disjoint sets over the indices `0..n`, as a flat parent array.
//!
//! A parent is never larger than its child, so the root of a class is its
//! smallest member and following parents always ends.

use vstd::prelude::*;

verus! {

/// No entry points upwards.
pub open spec fn parents_wf(p: Seq<usize>) -> bool {
    forall|i: int| 0 <= i < p.len() ==> #[trigger] p[i] <= i
}

/// The index at which following parents from `i` comes to rest.
pub open spec fn root_of(p: Seq<usize>, i: int) -> int
    decreases i,
{
    if 0 <= i < p.len() && p[i] < i {
        root_of(p, p[i] as int)
    } else {
        i
    }
}

/// A root is its own parent and lies at or below where the search began.
pub proof fn lemma_root_bounds(p: Seq<usize>, i: int)
    requires
        parents_wf(p),
        0 <= i < p.len(),
    ensures
        0 <= root_of(p, i) <= i,
        p[root_of(p, i)] == root_of(p, i),
        root_of(p, root_of(p, i)) == root_of(p, i),
    decreases i,
{
    if p[i] < i {
        lemma_root_bounds(p, p[i] as int);
    }
}

/// Pointing an index straight at its root changes no root.
pub proof fn lemma_compress(p: Seq<usize>, x: int, y: int)
    requires
        parents_wf(p),
        0 <= x < p.len(),
        0 <= y < p.len(),
    ensures
        parents_wf(p.update(x, root_of(p, x) as usize)),
        root_of(p.update(x, root_of(p, x) as usize), y) == root_of(p, y),
    decreases y,
{
    lemma_root_bounds(p, x);
    let r = root_of(p, x);
    let q = p.update(x, r as usize);
    assert(parents_wf(q));
    if q[y] < y {
        if y == x {
            assert(q[r] == r);
            assert(root_of(q, r) == r);
        } else {
            lemma_compress(p, x, p[y] as int);
        }
    }
}

/// Hanging one root below a smaller root moves exactly the members of its class.
pub proof fn lemma_link(p: Seq<usize>, big: int, small: int, y: int)
    requires
        parents_wf(p),
        0 <= small < big < p.len(),
        p[big] == big,
        p[small] == small,
        0 <= y < p.len(),
    ensures
        parents_wf(p.update(big, small as usize)),
        root_of(p.update(big, small as usize), y) == if root_of(p, y) == big {
            small
        } else {
            root_of(p, y)
        },
    decreases y,
{
    let q = p.update(big, small as usize);
    assert(parents_wf(q));
    if y == big {
        assert(root_of(q, small) == small);
    } else if p[y] < y {
        lemma_link(p, big, small, p[y] as int);
    }
}

/// A partition of `0..len` into classes that can only be merged.
pub struct UnionFind {
    parent: Vec<usize>,
}

impl UnionFind {
    /// The representation invariant.
    pub closed spec fn wf(self) -> bool {
        parents_wf(self.parent@)
    }

    /// The number of indices.
    pub closed spec fn len(self) -> nat {
        self.parent@.len()
    }

    /// The representative of the class of `i`.
    pub closed spec fn root(self, i: int) -> int {
        root_of(self.parent@, i)
    }

    /// The index that `i` points at: itself, if it is a representative.
    pub closed spec fn parent_of(self, i: int) -> int {
        self.parent@[i] as int
    }

    /// Whether `i` and `j` are in one class.
    pub open spec fn same(self, i: int, j: int) -> bool {
        self.root(i) == self.root(j)
    }

    /// Whether `x` and `y` are in one class once the classes of `i` and `j` are merged.
    pub open spec fn joined(self, i: int, j: int, x: int, y: int) -> bool {
        ||| self.same(x, y)
        ||| (self.same(x, i) && self.same(y, j))
        ||| (self.same(x, j) && self.same(y, i))
    }

    /// The representative is the smallest member of its class and represents itself.
    pub proof fn lemma_root(self, i: int)
        requires
            self.wf(),
            0 <= i < self.len(),
        ensures
            0 <= self.root(i) <= i,
            self.root(self.root(i)) == self.root(i),
    {
        lemma_root_bounds(self.parent@, i);
    }

    /// `n` classes of one index each.
    pub fn new(n: usize) -> (u: UnionFind)
        ensures
            u.wf(),
            u.len() == n,
            forall|i: int| 0 <= i < n ==> u.root(i) == i,
    {
        let mut parent: Vec<usize> = Vec::new();
        let mut i: usize = 0;
        while i < n
            invariant
                i <= n,
                parent@.len() == i,
                forall|j: int| 0 <= j < i ==> parent@[j] == j,
            decreases n - i,
        {
            parent.push(i);
            i = i + 1;
        }
        UnionFind { parent }
    }

    /// The representative of the class of `i`. The path walked is shortened
    /// on the way, so that `i` points straight at its representative
    /// afterwards; no class changes.
    pub fn find(&mut self, i: usize) -> (r: usize)
        requires
            old(self).wf(),
            i < old(self).len(),
        ensures
            final(self).wf(),
            final(self).len() == old(self).len(),
            r == old(self).root(i as int),
            final(self).parent_of(i as int) == r,
            forall|j: int| 0 <= j < old(self).len() ==> final(self).root(j) == old(self).root(j),
    {
        let mut r: usize = i;
        while self.parent[r] != r
            invariant
                r < self.parent@.len(),
                parents_wf(self.parent@),
                root_of(self.parent@, r as int) == root_of(self.parent@, i as int),
            decreases r,
        {
            r = self.parent[r];
        }
        proof {
            lemma_root_bounds(self.parent@, i as int);
        }
        let mut x: usize = i;
        while x != r
            invariant
                x < self.parent@.len(),
                r < self.parent@.len(),
                x <= i,
                self.parent@[r as int] == r,
                x == i || self.parent@[i as int] == r,
                self.parent@.len() == old(self).parent@.len(),
                parents_wf(self.parent@),
                r == root_of(old(self).parent@, i as int),
                root_of(self.parent@, x as int) == r,
                forall|j: int|
                    0 <= j < self.parent@.len() ==> root_of(self.parent@, j) == root_of(
                        old(self).parent@,
                        j,
                    ),
            decreases x,
        {
            let up: usize = self.parent[x];
            proof {
                let p = self.parent@;
                assert forall|j: int| 0 <= j < p.len() implies root_of(p.update(x as int, r), j)
                    == root_of(old(self).parent@, j) by {
                    lemma_compress(p, x as int, j);
                }
                lemma_compress(p, x as int, up as int);
            }
            self.parent.set(x, r);
            x = up;
        }
        r
    }

    /// Merges the classes of `i` and `j`.
    pub fn union(&mut self, i: usize, j: usize)
        requires
            old(self).wf(),
            i < old(self).len(),
            j < old(self).len(),
        ensures
            final(self).wf(),
            final(self).len() == old(self).len(),
            forall|x: int, y: int|
                0 <= x < old(self).len() && 0 <= y < old(self).len() ==> (#[trigger] final(self).same(x, y)
                    <==> old(self).joined(i as int, j as int, x, y)),
    {
        let ri = self.find(i);
        let rj = self.find(j);
        proof {
            lemma_root_bounds(self.parent@, i as int);
            lemma_root_bounds(self.parent@, j as int);
        }
        if ri != rj {
            let big: usize = if ri < rj { rj } else { ri };
            let small: usize = if ri < rj { ri } else { rj };
            proof {
                let p = self.parent@;
                assert forall|y: int| 0 <= y < p.len() implies root_of(
                    p.update(big as int, small),
                    y,
                ) == if root_of(p, y) == big {
                    small as int
                } else {
                    root_of(p, y)
                } by {
                    lemma_link(p, big as int, small as int, y);
                }
                lemma_link(p, big as int, small as int, 0);
            }
            self.parent.set(big, small);
        }
    }
}

} // verus!
