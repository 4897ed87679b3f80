//! Union-find over class ids, kept fully folded.
//!
//! Every entry stores its canonical root directly, so `find` is a single
//! lookup and `absorb` rewrites the losing class's entries in one pass.
//! The structure also tracks the number of distinct roots, which the
//! e-graph reports as its class count and which bounds the congruence
//! repair loop.

use vstd::prelude::*;

use crate::expr::Id;

verus! {

/// Number of roots among the first `n` entries of `s` (an entry is a root
/// when it points at itself).
pub open spec fn count_roots_upto(s: Seq<Id>, n: int) -> int
    decreases n,
{
    if n <= 0 {
        0
    } else {
        count_roots_upto(s, n - 1) + if s[n - 1] == n - 1 {
            1int
        } else {
            0int
        }
    }
}

/// Number of roots in `s`.
pub open spec fn count_roots(s: Seq<Id>) -> int {
    count_roots_upto(s, s.len() as int)
}

/// A union-find with eagerly folded entries.
#[derive(Debug)]
pub struct UnionFind {
    repr: Vec<Id>,
    roots: usize,
}

/// Counting roots looks only at the first `n` entries.
proof fn lemma_count_roots_upto_push(s: Seq<Id>, x: Id, n: int)
    requires
        0 <= n <= s.len(),
    ensures
        count_roots_upto(s.push(x), n) == count_roots_upto(s, n),
    decreases n,
{
    if n > 0 {
        lemma_count_roots_upto_push(s, x, n - 1);
    }
}

/// If rootness agrees on the first `n` entries except that index `j`
/// (a root in `s1`) is no root in `s2`, the count drops by one.
proof fn lemma_count_roots_drop_one(s1: Seq<Id>, s2: Seq<Id>, j: int, n: int)
    requires
        s1.len() == s2.len(),
        0 <= j < s1.len(),
        0 <= n <= s1.len(),
        s1[j] == j,
        s2[j] != j,
        forall|i: int| 0 <= i < s1.len() && i != j ==> ((s1[i] == i) <==> (s2[i] == i)),
    ensures
        count_roots_upto(s2, n) == count_roots_upto(s1, n) - if j < n {
            1int
        } else {
            0int
        },
    decreases n,
{
    if n > 0 {
        lemma_count_roots_drop_one(s1, s2, j, n - 1);
    }
}

/// The count never goes below zero, and a root below `n` forces at least
/// one.
proof fn lemma_count_roots_bounds(s: Seq<Id>, n: int, j: int)
    requires
        0 <= n <= s.len(),
    ensures
        0 <= count_roots_upto(s, n) <= n,
        0 <= j < n && s[j] == j ==> count_roots_upto(s, n) >= 1,
    decreases n,
{
    if n > 0 {
        lemma_count_roots_bounds(s, n - 1, j);
    }
}

/// Rootness is unchanged where the entries are unchanged.
proof fn lemma_count_roots_same(s1: Seq<Id>, s2: Seq<Id>, n: int)
    requires
        s1.len() == s2.len(),
        0 <= n <= s1.len(),
        forall|i: int| 0 <= i < s1.len() ==> ((s1[i] == i) <==> (s2[i] == i)),
    ensures
        count_roots_upto(s2, n) == count_roots_upto(s1, n),
    decreases n,
{
    if n > 0 {
        lemma_count_roots_same(s1, s2, n - 1);
    }
}

impl UnionFind {
    /// The entry sequence: position `i` holds the canonical root of `i`.
    pub closed spec fn view(self) -> Seq<Id> {
        self.repr@
    }

    /// The tracked number of distinct roots.
    pub closed spec fn spec_roots(self) -> usize {
        self.roots
    }

    /// Every entry is in range and points at a root; the root counter is
    /// exact.
    pub open spec fn wf(self) -> bool {
        &&& forall|i: int|
            0 <= i < self@.len() ==> (#[trigger] self@[i] as int) < self@.len() && self@[self@[i] as int]
                == self@[i]
        &&& self.spec_roots() == count_roots(self@)
    }

    /// Canonical root of `i` under the entry sequence `s`.
    pub open spec fn spec_find(s: Seq<Id>, i: int) -> Id {
        s[i]
    }

    /// An empty structure.
    pub fn new() -> (r: UnionFind)
        ensures
            r@ == Seq::<Id>::empty(),
            r.spec_roots() == 0,
            r.wf(),
    {
        UnionFind { repr: Vec::new(), roots: 0 }
    }

    /// Number of entries.
    pub fn len(&self) -> (r: usize)
        ensures
            r == self@.len(),
    {
        self.repr.len()
    }

    /// The tracked number of distinct roots.
    pub fn num_roots(&self) -> (r: usize)
        ensures
            r == self.spec_roots(),
    {
        self.roots
    }

    /// Add a fresh singleton class; its id is the old length.
    pub fn make_set(&mut self) -> (r: Id)
        requires
            old(self).wf(),
            old(self)@.len() < usize::MAX,
        ensures
            final(self).wf(),
            r == old(self)@.len(),
            final(self)@ == old(self)@.push(r),
            final(self).spec_roots() == old(self).spec_roots() + 1,
    {
        let id = self.repr.len();
        proof {
            lemma_count_roots_bounds(self@, self@.len() as int, 0);
        }
        self.repr.push(id);
        self.roots = self.roots + 1;
        proof {
            let s0 = old(self)@;
            let s1 = self@;
            lemma_count_roots_upto_push(s0, id, s0.len() as int);
            assert(count_roots_upto(s1, s1.len() as int) == count_roots_upto(s1, s1.len() - 1)
                + 1);
            assert(count_roots_upto(s1, s1.len() - 1) == count_roots_upto(s0, s0.len() as int));
            assert forall|i: int| 0 <= i < s1.len() implies (#[trigger] s1[i] as int) < s1.len()
                && s1[s1[i] as int] == s1[i] by {
                if i < s0.len() {
                    assert((s0[i] as int) < s0.len());
                    assert(s1[i] == s0[i]);
                    assert(s1[s1[i] as int] == s0[s0[i] as int]);
                }
            }
        }
        id
    }

    /// Canonical root of `i`.
    pub fn find(&self, i: Id) -> (r: Id)
        requires
            self.wf(),
            i < self@.len(),
        ensures
            r == Self::spec_find(self@, i as int),
            (r as int) < self@.len(),
            self@[r as int] == r,
    {
        self.repr[i]
    }

    /// Fold the root `lose` into the root `keep`: afterwards every member
    /// of either class answers `keep`.
    pub fn absorb(&mut self, keep: Id, lose: Id)
        requires
            old(self).wf(),
            (keep as int) < old(self)@.len(),
            (lose as int) < old(self)@.len(),
            old(self)@[keep as int] == keep,
            old(self)@[lose as int] == lose,
            keep != lose,
        ensures
            final(self).wf(),
            final(self)@.len() == old(self)@.len(),
            final(self).spec_roots() == old(self).spec_roots() - 1,
            forall|i: int|
                0 <= i < old(self)@.len() ==> final(self)@[i] == if old(self)@[i] == lose {
                    keep
                } else {
                    old(self)@[i]
                },
    {
        let ghost s0 = self@;
        let ghost r0 = self.roots;
        let n = self.repr.len();
        let mut i: usize = 0;
        while i < n
            invariant
                self.roots == r0,
                n == self.repr@.len(),
                n == s0.len(),
                i <= n,
                (keep as int) < s0.len(),
                (lose as int) < s0.len(),
                s0[keep as int] == keep,
                s0[lose as int] == lose,
                keep != lose,
                forall|k: int|
                    0 <= k < i ==> self.repr@[k] == if s0[k] == lose {
                        keep
                    } else {
                        s0[k]
                    },
                forall|k: int| i <= k < n ==> self.repr@[k] == s0[k],
            decreases n - i,
        {
            if self.repr[i] == lose {
                self.repr.set(i, keep);
            }
            i = i + 1;
        }
        proof {
            let s1 = self.repr@;
            // Rootness changes exactly at `lose`.
            assert forall|k: int| 0 <= k < s0.len() && k != lose implies ((s0[k] == k) <==> (
            s1[k] == k)) by {
                if s0[k] == lose {
                    assert(s1[k] == keep);
                    // `keep` is a root, so `s0[keep] == keep != lose`; hence
                    // `k == keep` would give `s0[k] == keep != lose`.
                    assert(s0[k] != k);
                    assert(s1[k] != k);
                }
            }
            assert(s1[lose as int] == keep);
            lemma_count_roots_drop_one(s0, s1, lose as int, s0.len() as int);
            lemma_count_roots_bounds(s0, s0.len() as int, lose as int);
            assert(self.roots >= 1);
        }
        self.roots = self.roots - 1;
        proof {
            let s0_ = s0;
            let s1 = self.repr@;
            assert forall|k: int| 0 <= k < s1.len() implies (#[trigger] s1[k] as int) < s1.len()
                && s1[s1[k] as int] == s1[k] by {
                if s0_[k] == lose {
                    assert(s1[k] == keep);
                    assert(s0_[keep as int] == keep);
                    assert(s1[keep as int] == keep);
                } else {
                    assert(s1[k] == s0_[k]);
                    assert(s0_[s0_[k] as int] == s0_[k]);
                    // The entry at the root `s0_[k]` was not rewritten,
                    // because that root is not `lose`.
                    assert(s0_[k] != lose ==> s1[s0_[k] as int] == s0_[k]);
                }
            }
        }
    }
}

} // verus!
