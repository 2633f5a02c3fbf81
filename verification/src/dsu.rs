//! Union-find partition over indices, with path compression.
//!
//! The forest is a flat array of parent links.  Every link points to an
//! index no larger than its own, so following links always terminates at a
//! self-parented root; `union` attaches the larger of two roots under the
//! smaller, which keeps that invariant.

use vstd::prelude::*;
use vstd::pervasive::VecAdditionalExecFns;

verus! {

/// Parent links never point upward: `s[i] <= i` for every index.
pub open spec fn parent_ok(s: Seq<usize>) -> bool {
    forall|i: int| 0 <= i < s.len() ==> s[i] <= i
}

/// The root reached from `i` by following parent links in `s`.
pub open spec fn root_in(s: Seq<usize>, i: int) -> int
    decreases i,
{
    if 0 <= i < s.len() && s[i] < i {
        root_in(s, s[i] as int)
    } else {
        i
    }
}

/// Roots stay within bounds, are self-parented, and are their own roots.
pub proof fn lemma_root_props(s: Seq<usize>, i: int)
    requires
        parent_ok(s),
        0 <= i < s.len(),
    ensures
        0 <= root_in(s, i) <= i,
        s[root_in(s, i)] == root_in(s, i),
        root_in(s, root_in(s, i)) == root_in(s, i),
    decreases i,
{
    if s[i] < i {
        lemma_root_props(s, s[i] as int);
    }
}

proof fn lemma_compress_one(s: Seq<usize>, k: int, r: usize, j: int)
    requires
        parent_ok(s),
        0 <= k < s.len(),
        r == root_in(s, k),
        0 <= j < s.len(),
    ensures
        root_in(s.update(k, r), j) == root_in(s, j),
    decreases j,
{
    let s2 = s.update(k, r);
    lemma_root_props(s, k);
    if j == k {
        if r < k {
            assert(s2[r as int] == s[r as int]);
            assert(root_in(s2, r as int) == r);
        }
    } else {
        if s[j] < j {
            lemma_compress_one(s, k, r, s[j] as int);
        }
    }
}

/// Rewriting one link to point directly at its own root changes no root.
pub proof fn lemma_compress(s: Seq<usize>, k: int, r: usize)
    requires
        parent_ok(s),
        0 <= k < s.len(),
        r == root_in(s, k),
    ensures
        parent_ok(s.update(k, r)),
        forall|j: int| 0 <= j < s.len() ==> root_in(s.update(k, r), j) == root_in(s, j),
    {
    lemma_root_props(s, k);
    assert forall|j: int| 0 <= j < s.len() implies root_in(s.update(k, r), j) == root_in(s, j) by {
        lemma_compress_one(s, k, r, j);
    }
}

proof fn lemma_link_one(s: Seq<usize>, ra: int, rb: usize, j: int)
    requires
        parent_ok(s),
        0 <= (rb as int) < ra < s.len(),
        s[ra] == ra,
        s[rb as int] == rb,
        0 <= j < s.len(),
    ensures
        root_in(s.update(ra, rb), j) == if root_in(s, j) == ra { rb as int } else { root_in(s, j) },
    decreases j,
{
    let s2 = s.update(ra, rb);
    if j == ra {
        assert(s2[rb as int] == rb);
        assert(root_in(s2, rb as int) == rb);
    } else {
        if s[j] < j {
            lemma_link_one(s, ra, rb, s[j] as int);
        }
    }
}

/// Attaching root `ra` under the smaller root `rb` redirects exactly the
/// members of `ra`'s class to `rb`, and leaves every other root alone.
pub proof fn lemma_link(s: Seq<usize>, ra: int, rb: usize)
    requires
        parent_ok(s),
        0 <= (rb as int) < ra < s.len(),
        s[ra] == ra,
        s[rb as int] == rb,
    ensures
        parent_ok(s.update(ra, rb)),
        forall|j: int| 0 <= j < s.len() ==>
            root_in(s.update(ra, rb), j) == (if root_in(s, j) == ra { rb as int } else { root_in(s, j) }),
{
    assert forall|j: int| 0 <= j < s.len() implies
        root_in(s.update(ra, rb), j) == (if root_in(s, j) == ra { rb as int } else { root_in(s, j) }) by {
        lemma_link_one(s, ra, rb, j);
    }
}

/// Union-find forest over indices `0 .. n`.
pub struct DisjointSet {
    parent: Vec<usize>,
}

impl DisjointSet {
    /// The parent array, as a mathematical sequence.
    pub closed spec fn parents(&self) -> Seq<usize> {
        self.parent@
    }

    /// Structural invariant: links point downward, so walks terminate.
    pub open spec fn wf(&self) -> bool {
        parent_ok(self.parents())
    }

    /// Number of items in the partition.
    pub open spec fn size(&self) -> nat {
        self.parents().len()
    }

    /// The canonical representative of `i`'s class.
    pub open spec fn root_of(&self, i: int) -> int {
        root_in(self.parents(), i)
    }

    /// Whether `a` and `b` lie in the same class.
    pub open spec fn same_set(&self, a: int, b: int) -> bool {
        self.root_of(a) == self.root_of(b)
    }

    /// A fresh partition of `n` singleton classes: every index is its own root.
    pub fn new(n: usize) -> (d: Self)
        ensures
            d.wf(),
            d.size() == n,
            forall|i: int| 0 <= i < n ==> d.root_of(i) == i,
    {
        let mut parent: Vec<usize> = Vec::new();
        let mut i: usize = 0;
        while i < n
            invariant
                i <= n,
                parent@.len() == i,
                forall|k: int| 0 <= k < i ==> parent@[k] == k,
            decreases n - i,
        {
            parent.push(i);
            i = i + 1;
        }
        let d = DisjointSet { parent };
        proof {
            assert forall|k: int| 0 <= k < n implies d.root_of(k) == k by {
                assert(d.parents()[k] == k);
            }
        }
        d
    }

    /// Number of items in the partition.
    pub fn len(&self) -> (n: usize)
        ensures
            n == self.size(),
    {
        self.parent.len()
    }

    /// Find the root of `i`'s class, compressing every visited link so that
    /// it points directly at the root.  No class membership changes.
    pub fn find_root(&mut self, i: usize) -> (r: usize)
        requires
            old(self).wf(),
            i < old(self).size(),
        ensures
            final(self).wf(),
            final(self).size() == old(self).size(),
            r == old(self).root_of(i as int),
            r <= i,
            final(self).root_of(r as int) == r,
            forall|j: int| 0 <= j < final(self).size() ==> final(self).root_of(j) == old(self).root_of(j),
            forall|j: int| i < j < final(self).size() ==> final(self).parents()[j] == old(self).parents()[j],
        decreases i,
    {
        let ghost s0 = self.parents();
        let p = self.parent[i];
        if p == i {
            proof {
                lemma_root_props(s0, i as int);
            }
            i
        } else {
            let r = self.find_root(p);
            let ghost s1 = self.parents();
            proof {
                assert(s1[i as int] == p);
                assert(r == root_in(s1, i as int));
                lemma_compress(s1, i as int, r);
                lemma_root_props(s0, p as int);
            }
            self.parent.set(i, r);
            r
        }
    }

    /// Merge the classes of `i` and `j`.  Afterwards two indices share a
    /// class exactly when they already did, or when one was with `i` and
    /// the other with `j`.
    pub fn union(&mut self, i: usize, j: usize)
        requires
            old(self).wf(),
            i < old(self).size(),
            j < old(self).size(),
        ensures
            final(self).wf(),
            final(self).size() == old(self).size(),
            forall|a: int, b: int| 0 <= a < final(self).size() && 0 <= b < final(self).size() ==>
                (final(self).same_set(a, b) <==> (old(self).same_set(a, b)
                    || (old(self).same_set(a, i as int) && old(self).same_set(b, j as int))
                    || (old(self).same_set(a, j as int) && old(self).same_set(b, i as int)))),
    {
        let ri = self.find_root(i);
        let rj = self.find_root(j);
        let ghost s1 = self.parents();
        proof {
            lemma_root_props(s1, ri as int);
            lemma_root_props(s1, rj as int);
            assert(root_in(s1, ri as int) == ri);
            assert(root_in(s1, rj as int) == rj);
            assert(s1[ri as int] == ri);
            assert(s1[rj as int] == rj);
        }
        if ri != rj {
            if rj < ri {
                proof {
                    lemma_link(s1, ri as int, rj);
                }
                self.parent.set(ri, rj);
            } else {
                proof {
                    lemma_link(s1, rj as int, ri);
                }
                self.parent.set(rj, ri);
            }
        }
    }
}

} // verus!
