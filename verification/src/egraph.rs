//! The e-graph engine: hash-consed equivalence classes, union-find, and
//! congruence repair.
//!
//! The graph owns a slot-indexed arena of classes, a hash-cons table
//! mapping a canonicalized node to the slot that first created it, the
//! union-find folding slots into canonical classes, and a worklist of
//! classes merged since the last congruence repair — the dirtiness signal
//! [`EGraph::rebuild`] consumes. A monotone merge counter records union
//! operations as an observability signal only.

use vstd::prelude::*;

use crate::analysis::ExprAnalysis;
use crate::cost::{add_sat, rows_of, rows_of_exec, sat_add};
use crate::expr::{arity_ok, nv, shape_ok, ENode, Id, NodeV};
use crate::recexpr::RecExpr;
use crate::union_find::UnionFind;

verus! {

/// One equivalence class: its member nodes, back-references to every node
/// elsewhere that has this class as a child, and the merged analysis value
/// (estimated row count).
#[derive(Debug)]
pub struct EClass {
    pub nodes: Vec<ENode>,
    pub parents: Vec<(ENode, Id)>,
    pub rows: u64,
}

/// The equivalence graph.
#[derive(Debug)]
pub struct EGraph {
    pub uf: UnionFind,
    pub classes: Vec<EClass>,
    pub memo: Vec<(ENode, Id)>,
    pub worklist: Vec<Id>,
    pub merges: u64,
}

/// Children mapped to their canonical roots.
pub open spec fn canon_ch(uf: Seq<Id>, ch: Seq<Id>) -> Seq<Id> {
    ch.map_values(|c: Id| uf[c as int])
}

/// First hash-cons entry whose key equals `key`, front to back.
pub open spec fn memo_find(m: Seq<(NodeV, Id)>, key: NodeV) -> Option<Id>
    decreases m.len(),
{
    if m.len() == 0 {
        None
    } else if m[0].0 == key {
        Some(m[0].1)
    } else {
        memo_find(m.drop_first(), key)
    }
}

/// The hash-cons table as a sequence of (node view, slot) pairs.
pub open spec fn memo_keys(m: Seq<(ENode, Id)>) -> Seq<(NodeV, Id)> {
    m.map_values(|e: (ENode, Id)| (nv(e.0), e.1))
}

/// Witness that a flat expression answers through the hash-cons table:
/// position `k`'s node, with each child position replaced by that child's
/// witness id, is a key the table maps to a slot of class `ids[k]`; every
/// witness id is a canonical root; and the root position's class is the
/// returned id. This is what insertion of a whole expression guarantees —
/// in particular a second insertion of the same expression answers the
/// same root.
pub open spec fn expr_consed(g: EGraph, nodes: Seq<NodeV>, ids: Seq<Id>, r: Id) -> bool {
    &&& ids.len() == nodes.len()
    &&& nodes.len() > 0
    &&& r == ids.last()
    &&& forall|k: int|
        0 <= k < ids.len() ==> (#[trigger] ids[k] as nat) < g.n_slots() && g.uf@[ids[k] as int]
            == ids[k]
    &&& forall|k: int|
        #![trigger nodes[k]]
        0 <= k < nodes.len() ==> exists|slot: Id|
            #![auto]
            memo_find(
                memo_keys(g.memo@),
                (nodes[k].0, nodes[k].1.map_values(|c: Id| ids[c as int])),
            ) == Some(slot) && (slot as nat) < g.n_slots() && g.uf@[slot as int] == ids[k]
}

/// Surviving root of a union, chosen by class size (larger node set wins)
/// with the smaller id breaking ties. Deterministic and documented: it
/// fixes which class id survives a merge.
pub open spec fn survivor(ra: Id, rb: Id, sa: nat, sb: nat) -> Id {
    if sa > sb {
        ra
    } else if sb > sa {
        rb
    } else if ra <= rb {
        ra
    } else {
        rb
    }
}

/// Row estimates of a node's children, read from their classes.
pub open spec fn class_child_rows(g: EGraph, ch: Seq<Id>) -> Seq<u64> {
    ch.map_values(|c: Id| g.classes@[g.uf@[c as int] as int].rows)
}

/// A node shaped well for a small arena is shaped well for a larger one.
pub proof fn lemma_shape_mono(v: NodeV, b1: nat, b2: nat)
    requires
        shape_ok(v, b1),
        b1 <= b2,
    ensures
        shape_ok(v, b2),
{
}

/// A hit in a table names one of its entries.
pub proof fn lemma_memo_find_some(m: Seq<(NodeV, Id)>, key: NodeV, v: Id)
    requires
        memo_find(m, key) == Some(v),
    ensures
        exists|j: int| 0 <= j < m.len() && #[trigger] m[j] == (key, v),
    decreases m.len(),
{
    assert(m.len() > 0);
    if m[0].0 == key {
        assert(m[0] == (key, v));
    } else {
        lemma_memo_find_some(m.drop_first(), key, v);
        let j = choose|j: int| 0 <= j < m.drop_first().len() && #[trigger] m.drop_first()[j] == (
            key,
            v,
        );
        assert(m[j + 1] == (key, v));
    }
}

/// A hit in a table is still the same hit in any extension of it.
pub proof fn lemma_memo_find_prefix(m1: Seq<(NodeV, Id)>, m2: Seq<(NodeV, Id)>, key: NodeV)
    requires
        memo_find(m1, key) is Some,
        m1.is_prefix_of(m2),
    ensures
        memo_find(m2, key) == memo_find(m1, key),
    decreases m1.len(),
{
    assert(m1.len() > 0);
    assert(m2.len() >= m1.len());
    assert(m2[0] == m1[0]);
    if m1[0].0 != key {
        assert(m1.drop_first().is_prefix_of(m2.drop_first()));
        lemma_memo_find_prefix(m1.drop_first(), m2.drop_first(), key);
    }
}

/// Appending an entry to a table with no match for `key` finds the new
/// entry exactly when its key matches.
pub proof fn lemma_memo_find_push(m: Seq<(NodeV, Id)>, key: NodeV, e: (NodeV, Id))
    requires
        memo_find(m, key) is None,
    ensures
        memo_find(m.push(e), key) == if e.0 == key {
            Some(e.1)
        } else {
            None::<Id>
        },
    decreases m.len(),
{
    if m.len() == 0 {
        assert(m.push(e).len() == 1);
        assert(m.push(e)[0] == e);
        if e.0 != key {
            let emp = m.push(e).drop_first();
            assert(emp =~= Seq::<(NodeV, Id)>::empty());
            assert(memo_find(emp, key) is None);
            assert(memo_find(m.push(e), key) == memo_find(emp, key));
        }
    } else {
        assert(m[0].0 != key);
        assert(memo_find(m.drop_first(), key) is None);
        assert(m.push(e)[0] == m[0]);
        assert(m.push(e).drop_first() =~= m.drop_first().push(e));
        lemma_memo_find_push(m.drop_first(), key, e);
        assert(memo_find(m.push(e), key) == memo_find(m.drop_first().push(e), key));
    }
}

/// Hash-consing: inserting the same node shape twice in a row returns the
/// same id both times, and the second insertion leaves the graph exactly
/// as the first left it.
pub proof fn lemma_hash_consing(
    g0: EGraph,
    g1: EGraph,
    g2: EGraph,
    stat: Seq<(u64, u64)>,
    node: ENode,
    r1: Id,
    r2: Id,
)
    requires
        g0.wf(),
        shape_ok(nv(node), g0.n_slots()),
        EGraph::add_step(g0, g1, stat, node, r1),
        EGraph::add_step(g1, g2, stat, node, r2),
    ensures
        r2 == r1,
        g2 == g1,
{
    let key0 = (node.op, canon_ch(g0.uf@, node.children@));
    match memo_find(memo_keys(g0.memo@), key0) {
        Some(id) => {
            assert(g1 == g0);
        },
        None => {
            // The fresh slot does not move any existing child's root, so
            // the node canonicalizes to the same key the second time.
            let key1 = (node.op, canon_ch(g1.uf@, node.children@));
            assert forall|j: int| 0 <= j < node.children@.len() implies g1.uf@[
                #[trigger] node.children@[j] as int] == g0.uf@[node.children@[j] as int] by {
                assert((node.children@[j] as nat) < g0.n_slots());
            }
            assert(canon_ch(g1.uf@, node.children@) =~= canon_ch(g0.uf@, node.children@));
            assert(key1 == key0);
            lemma_memo_find_push(memo_keys(g0.memo@), key0, (key0, r1));
            assert(memo_find(memo_keys(g1.memo@), key1) == Some(r1));
            assert(g1.uf@[r1 as int] == r1);
        },
    }
}

/// One congruence obligation: if the member nodes at `(s1, k1)` and
/// `(s2, k2)` agree on operator and canonicalized children, their slots
/// answer to one class.
pub open spec fn pair_ok(g: EGraph, s1: int, k1: int, s2: int, k2: int) -> bool {
    (g.class_nodes(s1)[k1].0 == g.class_nodes(s2)[k2].0 && canon_ch(g.uf@, g.class_nodes(s1)[k1].1)
        == canon_ch(g.uf@, g.class_nodes(s2)[k2].1)) ==> g.uf@[s1] == g.uf@[s2]
}

/// The congruence invariant: any two member nodes anywhere in the graph
/// with equal canonicalized shapes lie in one equivalence class.
pub open spec fn congruent(g: EGraph) -> bool {
    forall|s1: int, k1: int, s2: int, k2: int|
        0 <= s1 < g.n_slots() && 0 <= k1 < g.class_nodes(s1).len() && 0 <= s2 < g.n_slots() && 0
            <= k2 < g.class_nodes(s2).len() ==> #[trigger] pair_ok(g, s1, k1, s2, k2)
}

/// Slots equivalent in `g0` are still equivalent in `g1`: mutation only
/// ever adds equivalences, never removes them.
pub open spec fn equiv_preserved(g0: EGraph, g1: EGraph) -> bool {
    forall|i: int, j: int|
        0 <= i < g0.n_slots() && 0 <= j < g0.n_slots() && g0.uf@[i] == g0.uf@[j] ==> g1.uf@[i]
            == g1.uf@[j]
}

/// Preservation composes across successive mutations.
pub proof fn lemma_equiv_trans(g0: EGraph, g1: EGraph, g2: EGraph)
    requires
        equiv_preserved(g0, g1),
        equiv_preserved(g1, g2),
        g0.n_slots() <= g1.n_slots(),
    ensures
        equiv_preserved(g0, g2),
{
    assert forall|i: int, j: int|
        0 <= i < g0.n_slots() && 0 <= j < g0.n_slots() && g0.uf@[i] == g0.uf@[j] implies g2.uf@[i]
        == g2.uf@[j] by {
        assert(g1.uf@[i] == g1.uf@[j]);
    }
}

/// A union folds roots pointwise, so slots equivalent before it stay
/// equivalent after it.
pub proof fn lemma_equiv_preserved(pre: EGraph, post: EGraph, g0: EGraph, a: Id, b: Id)
    requires
        g0.n_slots() <= pre.n_slots(),
        (a as nat) < pre.n_slots(),
        (b as nat) < pre.n_slots(),
        EGraph::unite_post(pre, post, a, b),
        forall|i: int, j: int|
            0 <= i < g0.n_slots() && 0 <= j < g0.n_slots() && g0.uf@[i] == g0.uf@[j]
                ==> pre.uf@[i] == pre.uf@[j],
    ensures
        forall|i: int, j: int|
            0 <= i < g0.n_slots() && 0 <= j < g0.n_slots() && g0.uf@[i] == g0.uf@[j]
                ==> post.uf@[i] == post.uf@[j],
{
    assert forall|i: int, j: int|
        0 <= i < g0.n_slots() && 0 <= j < g0.n_slots() && g0.uf@[i] == g0.uf@[j] implies
        post.uf@[i] == post.uf@[j] by {
        assert(pre.uf@[i] == pre.uf@[j]);
    }
}

impl EGraph {
    /// Number of node-creation slots handed out so far.
    pub open spec fn n_slots(self) -> nat {
        self.uf@.len()
    }

    /// The member-node views of the class at slot `i`.
    pub open spec fn class_nodes(self, i: int) -> Seq<NodeV> {
        self.classes@[i].nodes@.map_values(|n: ENode| nv(n))
    }

    /// The merged analysis value (row estimate) of the class at slot `i`.
    pub open spec fn class_rows(self, i: int) -> u64 {
        self.classes@[i].rows
    }

    /// The back-references of the class at slot `i`, as views: every node
    /// elsewhere in the graph that was registered with this class as a
    /// child, together with its own slot.
    pub open spec fn class_parents(self, i: int) -> Seq<(NodeV, Id)> {
        self.classes@[i].parents@.map_values(|p: (ENode, Id)| (nv(p.0), p.1))
    }

    /// Canonical root of slot `i`.
    pub open spec fn spec_find(self, i: int) -> Id {
        self.uf@[i]
    }

    /// Structural well-formedness: the union-find is valid, every arena has
    /// one entry per slot, and every stored node or back-reference points
    /// at existing slots with a child count fitting its operator.
    pub open spec fn wf(self) -> bool {
        &&& self.uf.wf()
        &&& self.classes@.len() == self.n_slots()
        &&& forall|k: int|
            0 <= k < self.memo@.len() ==> shape_ok(nv(#[trigger] self.memo@[k].0), self.n_slots())
                && (self.memo@[k].1 as nat) < self.n_slots()
        &&& forall|i: int, j: int|
            #![auto]
            0 <= i < self.classes@.len() && 0 <= j < self.classes@[i].nodes@.len() ==> shape_ok(
                nv(self.classes@[i].nodes@[j]),
                self.n_slots(),
            )
        &&& forall|i: int, j: int|
            #![auto]
            0 <= i < self.classes@.len() && 0 <= j < self.classes@[i].parents@.len() ==> shape_ok(
                nv(self.classes@[i].parents@[j].0),
                self.n_slots(),
            ) && (self.classes@[i].parents@[j].1 as nat) < self.n_slots()
        &&& forall|k: int|
            0 <= k < self.worklist@.len() ==> (#[trigger] self.worklist@[k] as nat) < self.n_slots()
    }

    /// A fresh, empty graph.
    pub fn new() -> (r: EGraph)
        ensures
            r.wf(),
            r.n_slots() == 0,
            r.memo@.len() == 0,
            r.merges == 0,
            r.uf.spec_roots() == 0,
    {
        EGraph {
            uf: UnionFind::new(),
            classes: Vec::new(),
            memo: Vec::new(),
            worklist: Vec::new(),
            merges: 0,
        }
    }

    /// Number of slots (an upper bound for every id the graph ever
    /// returned).
    pub fn len(&self) -> (r: usize)
        ensures
            r == self.n_slots(),
    {
        self.uf.len()
    }

    /// Number of equivalence classes (distinct canonical roots).
    pub fn number_of_classes(&self) -> (r: usize)
        ensures
            r == self.uf.spec_roots(),
    {
        self.uf.num_roots()
    }

    /// Size of the hash-cons table.
    pub fn total_size(&self) -> (r: usize)
        ensures
            r == self.memo@.len(),
    {
        self.memo.len()
    }

    /// The monotone union counter.
    pub fn merge_count(&self) -> (r: u64)
        ensures
            r == self.merges,
    {
        self.merges
    }

    /// Read-only per-class statistics: the smallest and largest member
    /// count over the canonical classes — both attained by some class —
    /// and the class count. All zero on an empty graph.
    pub fn class_stats(&self) -> (r: (usize, usize, usize))
        requires
            self.wf(),
        ensures
            r.2 == self.uf.spec_roots(),
            forall|c: int|
                0 <= c < self.n_slots() && self.uf@[c] == c ==> r.0 <= (
                #[trigger] self.class_nodes(c)).len() <= r.1,
            r.2 == 0 ==> r.0 == 0 && r.1 == 0,
            r.2 > 0 ==> exists|c: int|
                0 <= c < self.n_slots() && self.uf@[c] == c && (#[trigger] self.class_nodes(
                    c,
                )).len() == r.0,
            r.2 > 0 ==> exists|c: int|
                0 <= c < self.n_slots() && self.uf@[c] == c && (#[trigger] self.class_nodes(
                    c,
                )).len() == r.1,
    {
        let n = self.uf.len();
        let mut mn: usize = usize::MAX;
        let mut mx: usize = 0;
        let mut cnt: usize = 0;
        let mut s: usize = 0;
        while s < n
            invariant
                self.wf(),
                n == self.n_slots(),
                s <= n,
                cnt == crate::union_find::count_roots_upto(self.uf@, s as int),
                0 <= cnt <= s,
                forall|c: int|
                    0 <= c < s && self.uf@[c] == c ==> mn <= (#[trigger] self.class_nodes(
                        c,
                    )).len() <= mx,
                cnt == 0 ==> mn == usize::MAX && mx == 0,
                cnt > 0 ==> exists|c: int|
                    0 <= c < s && self.uf@[c] == c && (#[trigger] self.class_nodes(c)).len() == mn,
                cnt > 0 ==> exists|c: int|
                    0 <= c < s && self.uf@[c] == c && (#[trigger] self.class_nodes(c)).len() == mx,
            decreases n - s,
        {
            if self.uf.find(s) == s {
                let len = self.classes[s].nodes.len();
                proof {
                    assert(self.class_nodes(s as int).len() == len);
                }
                if len < mn {
                    mn = len;
                }
                if len > mx {
                    mx = len;
                }
                cnt = cnt + 1;
            }
            s = s + 1;
        }
        if cnt == 0 {
            mn = 0;
        }
        (mn, mx, cnt)
    }

    /// Canonical root of `i`.
    pub fn find(&self, i: Id) -> (r: Id)
        requires
            self.wf(),
            (i as nat) < self.n_slots(),
        ensures
            r == self.spec_find(i as int),
            (r as nat) < self.n_slots(),
            self.uf@[r as int] == r,
    {
        self.uf.find(i)
    }

    /// The node with every child folded to its canonical root.
    pub fn canonicalize(&self, n: &ENode) -> (r: ENode)
        requires
            self.wf(),
            shape_ok(nv(*n), self.n_slots()),
        ensures
            nv(r) == (n.op, canon_ch(self.uf@, n.children@)),
            shape_ok(nv(r), self.n_slots()),
            forall|j: int| 0 <= j < r.children@.len() ==> self.uf@[#[trigger] r.children@[j] as int]
                == r.children@[j],
    {
        let mut ch: Vec<Id> = Vec::new();
        let mut j: usize = 0;
        while j < n.children.len()
            invariant
                self.wf(),
                shape_ok(nv(*n), self.n_slots()),
                j <= n.children@.len(),
                ch@.len() == j,
                forall|k: int| 0 <= k < j ==> ch@[k] == self.uf@[#[trigger] n.children@[k] as int],
            decreases n.children@.len() - j,
        {
            ch.push(self.uf.find(n.children[j]));
            j = j + 1;
        }
        proof {
            assert(ch@ =~= canon_ch(self.uf@, n.children@));
        }
        ENode { op: n.op, children: ch }
    }

    /// First hash-cons entry matching the node, if any.
    pub fn memo_lookup(&self, key: &ENode) -> (r: Option<Id>)
        ensures
            r == memo_find(memo_keys(self.memo@), nv(*key)),
            r matches Some(id) ==> exists|k: int|
                0 <= k < self.memo@.len() && memo_keys(self.memo@)[k] == (nv(*key), id),
    {
        let ghost keys = memo_keys(self.memo@);
        let mut i: usize = 0;
        proof {
            assert(keys.skip(0) =~= keys);
        }
        while i < self.memo.len()
            invariant
                i <= self.memo@.len(),
                keys == memo_keys(self.memo@),
                memo_find(keys, nv(*key)) == memo_find(keys.skip(i as int), nv(*key)),
                forall|k: int| 0 <= k < i ==> keys[k].0 != nv(*key),
            decreases self.memo@.len() - i,
        {
            let entry = &self.memo[i];
            proof {
                assert(keys.skip(i as int)[0] == keys[i as int]);
                assert(keys.skip(i as int).drop_first() =~= keys.skip(i as int + 1));
            }
            if entry.0.eq_shape(key) {
                assert(keys[i as int] == (nv(*key), entry.1));
                return Some(entry.1);
            }
            i = i + 1;
        }
        proof {
            assert(keys.skip(i as int).len() == 0);
        }
        None
    }

    /// What one insertion does. On a hash-cons hit the graph is unchanged
    /// and the hit's slot (canonicalized) is returned; on a miss a fresh
    /// singleton class is created, its analysis value computed from the
    /// children's classes and the statistics, and the canonical shape is
    /// registered in the hash-cons table.
    pub open spec fn add_step(g0: EGraph, g1: EGraph, stat: Seq<(u64, u64)>, node: ENode, r: Id) -> bool {
        let key = (node.op, canon_ch(g0.uf@, node.children@));
        match memo_find(memo_keys(g0.memo@), key) {
            Some(id) => {
                &&& g1 == g0
                &&& r == g0.uf@[id as int]
            },
            None => {
                &&& r == g0.n_slots()
                &&& g1.n_slots() == g0.n_slots() + 1
                &&& g1.uf@ == g0.uf@.push(r)
                &&& g1.uf.spec_roots() == g0.uf.spec_roots() + 1
                &&& memo_keys(g1.memo@) == memo_keys(g0.memo@).push((key, r))
                &&& g1.class_nodes(r as int) == seq![key]
                &&& g1.class_rows(r as int) == rows_of(
                    node.op,
                    class_child_rows(g0, node.children@),
                    stat,
                )
                &&& forall|i: int|
                    0 <= i < g0.n_slots() ==> g1.class_nodes(i) == g0.class_nodes(i)
                        && g1.class_rows(i) == g0.class_rows(i)
                &&& forall|j: int|
                    0 <= j < key.1.len() ==> g1.class_parents(
                        #[trigger] key.1[j] as int,
                    ).contains((key, r))
                &&& forall|i: int|
                    0 <= i < g0.n_slots() && !key.1.contains(i as Id) ==> g1.class_parents(i)
                        == g0.class_parents(i)
            },
        }
    }

    /// Canonicalize the node's children, then return the existing slot if
    /// the hash-cons table already holds the shape, or create a fresh
    /// singleton class: its analysis value is computed from the children's
    /// classes and the statistics source, the node is registered in the
    /// hash-cons table and as a parent of each child class.
    pub fn add_node(&mut self, anal: &ExprAnalysis, node: ENode) -> (r: Id)
        requires
            old(self).wf(),
            shape_ok(nv(node), old(self).n_slots()),
            old(self).n_slots() < usize::MAX,
        ensures
            final(self).wf(),
            final(self).merges == old(self).merges,
            (r as nat) < final(self).n_slots(),
            final(self).worklist@ == old(self).worklist@,
            Self::add_step(*old(self), *final(self), anal.stat.table_rows@, node, r),
    {
        let cn = self.canonicalize(&node);
        let ghost key = (node.op, canon_ch(self.uf@, node.children@));
        assert(nv(cn) == key);
        match self.memo_lookup(&cn) {
            Some(id) => {
                proof {
                    let k = choose|k: int|
                        0 <= k < self.memo@.len() && memo_keys(self.memo@)[k] == (nv(cn), id);
                    assert(memo_keys(self.memo@)[k] == (nv(self.memo@[k].0), self.memo@[k].1));
                    assert((self.memo@[k].1 as nat) < self.n_slots());
                }
                let r = self.uf.find(id);
                r
            },
            None => {
                let id = self.uf.make_set();
                // Analysis: output-row estimate from the children's classes
                // and the statistics source.
                let mut crows: Vec<u64> = Vec::new();
                let mut j: usize = 0;
                while j < node.children.len()
                    invariant
                        self.wf_after_make(*old(self), id),
                        id == old(self).n_slots(),
                        shape_ok(nv(node), old(self).n_slots()),
                        j <= node.children@.len(),
                        crows@.len() == j,
                        forall|k: int|
                            0 <= k < j ==> crows@[k] == old(self).classes@[old(self).uf@[
                                #[trigger] node.children@[k] as int] as int].rows,
                    decreases node.children@.len() - j,
                {
                    let c = self.uf.find(node.children[j]);
                    crows.push(self.classes[c].rows);
                    j = j + 1;
                }
                proof {
                    assert(crows@ =~= class_child_rows(*old(self), node.children@));
                }
                let rows = rows_of_exec(node.op, &crows, &anal.stat);
                let mut members: Vec<ENode> = Vec::new();
                members.push(cn.duplicate());
                self.classes.push(EClass { nodes: members, parents: Vec::new(), rows });
                self.memo.push((cn.duplicate(), id));
                proof {
                    let g0 = *old(self);
                    let n0 = g0.n_slots();
                    assert(memo_keys(self.memo@) =~= memo_keys(g0.memo@).push((key, id)));
                    assert(self.class_nodes(id as int) =~= seq![key]);
                    assert forall|i: int| 0 <= i < n0 implies self.class_nodes(i)
                        == g0.class_nodes(i) && self.class_rows(i) == g0.class_rows(i) by {
                        assert(self.classes@[i] == g0.classes@[i]);
                    }
                    assert forall|k: int| 0 <= k < self.memo@.len() implies shape_ok(
                        nv(#[trigger] self.memo@[k].0),
                        self.n_slots(),
                    ) && (self.memo@[k].1 as nat) < self.n_slots() by {
                        if k < g0.memo@.len() {
                            assert(self.memo@[k] == g0.memo@[k]);
                            lemma_shape_mono(nv(g0.memo@[k].0), n0, n0 + 1);
                        } else {
                            assert(nv(self.memo@[k].0) == key);
                            lemma_shape_mono(key, n0, n0 + 1);
                        }
                    }
                    assert forall|i: int, j: int|
                        0 <= i < self.classes@.len() && 0 <= j
                            < self.classes@[i].nodes@.len() implies shape_ok(
                        nv(#[trigger] self.classes@[i].nodes@[j]),
                        self.n_slots(),
                    ) by {
                        if i < g0.classes@.len() {
                            assert(self.classes@[i] == g0.classes@[i]);
                            lemma_shape_mono(nv(g0.classes@[i].nodes@[j]), n0, n0 + 1);
                        } else {
                            assert(nv(self.classes@[i].nodes@[j]) == key);
                            lemma_shape_mono(key, n0, n0 + 1);
                        }
                    }
                    assert forall|i: int, j: int|
                        0 <= i < self.classes@.len() && 0 <= j
                            < self.classes@[i].parents@.len() implies shape_ok(
                        nv(#[trigger] self.classes@[i].parents@[j].0),
                        self.n_slots(),
                    ) && (self.classes@[i].parents@[j].1 as nat) < self.n_slots() by {
                        if i < g0.classes@.len() {
                            assert(self.classes@[i] == g0.classes@[i]);
                            lemma_shape_mono(nv(g0.classes@[i].parents@[j].0), n0, n0 + 1);
                        }
                    }
                    assert(self.wf());
                }
                // Register the node as a parent of each child class.
                let ghost gm = *self;
                let mut j2: usize = 0;
                while j2 < cn.children.len()
                    invariant
                        self.parents_loop_inv(*old(self), id, anal, node, cn, key),
                        shape_ok(nv(cn), old(self).n_slots() + 1),
                        j2 <= cn.children@.len(),
                        gm.classes@.len() == self.classes@.len(),
                        forall|jj: int|
                            0 <= jj < j2 ==> self.class_parents(
                                #[trigger] cn.children@[jj] as int,
                            ).contains((key, id)),
                        forall|i: int|
                            0 <= i < self.classes@.len() && !cn.children@.subrange(
                                0,
                                j2 as int,
                            ).contains(i as Id) ==> self.class_parents(i) == gm.class_parents(i),
                    decreases cn.children@.len() - j2,
                {
                    let c = cn.children[j2];
                    let dup = cn.duplicate();
                    let ghost pre = *self;
                    self.classes[c].parents.push((dup, id));
                    proof {
                        assert(self.class_parents(c as int) =~= pre.class_parents(c as int).push(
                            (key, id),
                        ));
                        assert(self.class_parents(c as int)[self.class_parents(
                            c as int,
                        ).len() - 1] == (key, id));
                        assert forall|jj: int| 0 <= jj < j2 + 1 implies self.class_parents(
                            #[trigger] cn.children@[jj] as int,
                        ).contains((key, id)) by {
                            if jj < j2 {
                                if cn.children@[jj] == c {
                                    let w = choose|w: int|
                                        0 <= w < pre.class_parents(c as int).len()
                                            && pre.class_parents(c as int)[w] == ((key, id));
                                    assert(self.class_parents(c as int)[w] == (key, id));
                                } else {
                                    assert(self.classes@[cn.children@[jj] as int]
                                        == pre.classes@[cn.children@[jj] as int]);
                                }
                            }
                        }
                        assert forall|i: int|
                            0 <= i < self.classes@.len() && !cn.children@.subrange(
                                0,
                                j2 as int + 1,
                            ).contains(i as Id) implies self.class_parents(i)
                            == gm.class_parents(i) by {
                            assert(cn.children@.subrange(0, j2 as int + 1)[j2 as int] == c);
                            assert(i != c);
                            assert(self.classes@[i] == pre.classes@[i]);
                            assert forall|w: int|
                                0 <= w < j2 && cn.children@.subrange(0, j2 as int)[w] == i
                                    as Id implies false by {
                                assert(cn.children@.subrange(0, j2 as int + 1)[w] == i as Id);
                            }
                            assert(!cn.children@.subrange(0, j2 as int).contains(i as Id));
                        }
                    }
                    j2 = j2 + 1;
                }
                proof {
                    assert(cn.children@.subrange(0, cn.children@.len() as int) =~= cn.children@);
                    assert(key.1 == cn.children@);
                    assert forall|i: int|
                        0 <= i < old(self).n_slots() && !key.1.contains(i as Id) implies
                        self.class_parents(i) == old(self).class_parents(i) by {
                        assert(self.class_parents(i) == gm.class_parents(i));
                        assert(gm.classes@[i] == old(self).classes@[i]);
                    }
                }
                id
            },
        }
    }

    /// What a successful union guarantees: the losing root's entries are
    /// folded onto the survivor, the class count drops by one, the merge
    /// counter steps, the survivor's class carries both node sets and the
    /// lattice-merged analysis (minimum of the two estimates), and the
    /// survivor is queued for congruence repair.
    pub open spec fn unite_post(g0: EGraph, g1: EGraph, a: Id, b: Id) -> bool {
        let ra = g0.uf@[a as int];
        let rb = g0.uf@[b as int];
        let keep = survivor(ra, rb, g0.class_nodes(ra as int).len(), g0.class_nodes(rb as int).len());
        let lose = if keep == ra {
            rb
        } else {
            ra
        };
        &&& g1.uf@.len() == g0.uf@.len()
        &&& forall|i: int|
            0 <= i < g0.uf@.len() ==> g1.uf@[i] == (if g0.uf@[i] == lose {
                keep
            } else {
                g0.uf@[i]
            })
        &&& g1.uf.spec_roots() == g0.uf.spec_roots() - 1
        &&& g1.merges == sat_add(g0.merges, 1)
        &&& g1.uf@[a as int] == keep
        &&& g1.uf@[b as int] == keep
        &&& g1.class_nodes(keep as int) == g0.class_nodes(keep as int) + g0.class_nodes(
            lose as int,
        )
        &&& g1.class_rows(keep as int) == (if g0.class_rows(keep as int) <= g0.class_rows(
            lose as int,
        ) {
            g0.class_rows(keep as int)
        } else {
            g0.class_rows(lose as int)
        })
        &&& g1.class_nodes(lose as int) == Seq::<NodeV>::empty()
        &&& g1.class_parents(keep as int) == g0.class_parents(keep as int) + g0.class_parents(
            lose as int,
        )
        &&& g1.class_parents(lose as int) == Seq::<(NodeV, Id)>::empty()
        &&& forall|i: int|
            0 <= i < g0.uf@.len() && i != keep && i != lose ==> g1.class_nodes(i)
                == g0.class_nodes(i) && g1.class_rows(i) == g0.class_rows(i)
                && g1.class_parents(i) == g0.class_parents(i)
        &&& memo_keys(g1.memo@) == memo_keys(g0.memo@)
        &&& g1.worklist@ == g0.worklist@.push(keep)
    }

    /// Resolve both ids to their canonical roots; if they already agree,
    /// do nothing and return `false`. Otherwise fold the smaller class
    /// into the larger (ties keep the smaller id), merge the analyses by
    /// minimum, relink the losing class's parent back-references onto the
    /// survivor, queue the survivor for congruence repair, step the merge
    /// counter, and return `true`.
    #[verifier::rlimit(100)]
    #[verifier::spinoff_prover]
    pub fn unite(&mut self, a: Id, b: Id) -> (r: bool)
        requires
            old(self).wf(),
            (a as nat) < old(self).n_slots(),
            (b as nat) < old(self).n_slots(),
        ensures
            final(self).wf(),
            final(self).n_slots() == old(self).n_slots(),
            r == (old(self).uf@[a as int] != old(self).uf@[b as int]),
            !r ==> *final(self) == *old(self),
            r ==> Self::unite_post(*old(self), *final(self), a, b),
    {
        let ra = self.uf.find(a);
        let rb = self.uf.find(b);
        if ra == rb {
            return false;
        }
        let ghost g0 = *old(self);
        let sa = self.classes[ra].nodes.len();
        let sb = self.classes[rb].nodes.len();
        let keep: Id;
        let lose: Id;
        if sa > sb {
            keep = ra;
            lose = rb;
        } else if sb > sa {
            keep = rb;
            lose = ra;
        } else if ra <= rb {
            keep = ra;
            lose = rb;
        } else {
            keep = rb;
            lose = ra;
        }
        proof {
            assert(keep == survivor(ra, rb, g0.class_nodes(ra as int).len(), g0.class_nodes(rb as int).len()));
        }
        self.uf.absorb(keep, lose);
        // Lattice merge of the analyses: minimum of the two estimates.
        let rk = self.classes[keep].rows;
        let rl = self.classes[lose].rows;
        let merged_rows = if rk <= rl {
            rk
        } else {
            rl
        };
        self.classes[keep].rows = merged_rows;
        // Move the losing class's nodes onto the survivor, keeping order.
        let ghost mid = *self;
        let n_lose = self.classes[lose].nodes.len();
        let mut i: usize = 0;
        while i < n_lose
            invariant
                i <= n_lose,
                keep != lose,
                (keep as nat) < mid.n_slots(),
                (lose as nat) < mid.n_slots(),
                (keep as nat) < self.classes@.len(),
                (lose as nat) < self.classes@.len(),
                self.uf == mid.uf,
                self.memo@ == mid.memo@,
                self.worklist@ == mid.worklist@,
                self.merges == mid.merges,
                self.classes@.len() == mid.classes@.len(),
                n_lose == mid.classes@[lose as int].nodes@.len(),
                self.classes@[lose as int] == mid.classes@[lose as int],
                self.class_nodes(keep as int) == mid.class_nodes(keep as int)
                    + mid.class_nodes(lose as int).take(i as int),
                self.classes@[keep as int].parents@ == mid.classes@[keep as int].parents@,
                self.classes@[keep as int].rows == mid.classes@[keep as int].rows,
                forall|q: int|
                    0 <= q < self.classes@.len() && q != keep ==> self.classes@[q]
                        == mid.classes@[q],
            decreases n_lose - i,
        {
            let d = self.classes[lose].nodes[i].duplicate();
            proof {
                assert(nv(d) == mid.class_nodes(lose as int)[i as int]);
            }
            let ghost pre = *self;
            self.classes[keep].nodes.push(d);
            proof {
                assert(self.classes@[keep as int].nodes@ == pre.classes@[keep as
                    int].nodes@.push(d));
                assert(self.class_nodes(keep as int) =~= pre.class_nodes(keep as int).push(
                    nv(d),
                ));
                assert(self.class_nodes(keep as int) =~= mid.class_nodes(keep as int)
                    + mid.class_nodes(lose as int).take(i as int + 1));
            }
            i = i + 1;
        }
        proof {
            assert(mid.class_nodes(lose as int).take(n_lose as int) =~= mid.class_nodes(
                lose as int,
            ));
        }
        // Move the losing class's back-references onto the survivor.
        let n_par = self.classes[lose].parents.len();
        let ghost mid2 = *self;
        let mut i2: usize = 0;
        while i2 < n_par
            invariant
                i2 <= n_par,
                keep != lose,
                (keep as nat) < mid2.n_slots(),
                (lose as nat) < mid2.n_slots(),
                (keep as nat) < self.classes@.len(),
                (lose as nat) < self.classes@.len(),
                self.uf == mid2.uf,
                self.memo@ == mid2.memo@,
                self.worklist@ == mid2.worklist@,
                self.merges == mid2.merges,
                self.classes@.len() == mid2.classes@.len(),
                n_par == mid2.classes@[lose as int].parents@.len(),
                self.classes@[lose as int] == mid2.classes@[lose as int],
                self.classes@[keep as int].nodes@ == mid2.classes@[keep as int].nodes@,
                self.classes@[keep as int].rows == mid2.classes@[keep as int].rows,
                self.classes@[keep as int].parents@.len() == mid2.classes@[keep as
                    int].parents@.len() + i2,
                forall|k: int|
                    0 <= k < mid2.classes@[keep as int].parents@.len()
                        ==> self.classes@[keep as int].parents@[k] == mid2.classes@[keep as
                        int].parents@[k],
                forall|k: int|
                    0 <= k < i2 ==> nv(
                        #[trigger] self.classes@[keep as int].parents@[mid2.classes@[keep as
                            int].parents@.len() + k].0,
                    ) == nv(mid2.classes@[lose as int].parents@[k].0) && self.classes@[keep as
                        int].parents@[mid2.classes@[keep as int].parents@.len() + k].1
                        == mid2.classes@[lose as int].parents@[k].1,
                forall|q: int|
                    0 <= q < self.classes@.len() && q != keep ==> self.classes@[q]
                        == mid2.classes@[q],
            decreases n_par - i2,
        {
            let d = self.classes[lose].parents[i2].0.duplicate();
            let pid = self.classes[lose].parents[i2].1;
            self.classes[keep].parents.push((d, pid));
            i2 = i2 + 1;
        }
        // Empty the losing class; its id now answers to the survivor.
        let ghost mid3 = *self;
        self.classes[lose].nodes.clear();
        self.classes[lose].parents.clear();
        self.worklist.push(keep);
        self.merges = add_sat(self.merges, 1);
        proof {
            let g1 = *self;
            assert(mid.classes@ == g0.classes@.update(
                keep as int,
                mid.classes@[keep as int],
            ));
            assert forall|q: int| 0 <= q < g1.classes@.len() && q != keep && q != lose implies
                g1.classes@[q] == g0.classes@[q] by {
                assert(g1.classes@[q] == mid3.classes@[q]);
                assert(mid3.classes@[q] == mid2.classes@[q]);
                assert(mid2.classes@[q] == mid.classes@[q]);
                assert(mid.classes@[q] == g0.classes@[q]);
            }
            assert(g1.class_nodes(lose as int) =~= Seq::<NodeV>::empty());
            assert(g1.class_nodes(keep as int) =~= g0.class_nodes(keep as int) + g0.class_nodes(
                lose as int,
            ));
            assert(memo_keys(g1.memo@) =~= memo_keys(g0.memo@));
            assert forall|q: int| 0 <= q < g0.uf@.len() && q != keep && q != lose implies
                g1.class_nodes(q) == g0.class_nodes(q) && g1.class_rows(q) == g0.class_rows(
                q,
            ) by {
                assert(g1.classes@[q] == g0.classes@[q]);
            }
            // Well-formedness: the union-find entries were folded, nodes
            // kept their shapes, and every stored id stays in range.
            assert forall|ii: int, j: int|
                0 <= ii < g1.classes@.len() && 0 <= j < g1.classes@[ii].nodes@.len() implies
                shape_ok(nv(#[trigger] g1.classes@[ii].nodes@[j]), g1.n_slots()) by {
                if ii == keep {
                    let base = g0.class_nodes(keep as int).len() as int;
                    if j < base {
                        assert(g1.class_nodes(keep as int)[j] == g0.class_nodes(keep as int)[j]);
                    } else {
                        assert(g1.class_nodes(keep as int)[j] == g0.class_nodes(lose as int)[j
                            - base]);
                    }
                    assert(nv(g1.classes@[ii].nodes@[j]) == g1.class_nodes(ii)[j]);
                } else if ii == lose {
                    assert(g1.classes@[ii].nodes@.len() == 0);
                } else {
                    assert(g1.classes@[ii] == g0.classes@[ii]);
                }
            }
            // Back-references: the survivor carries both lists in order,
            // the losing class is emptied, everything else is untouched.
            assert(g1.class_parents(lose as int) =~= Seq::<(NodeV, Id)>::empty());
            assert forall|j: int|
                0 <= j < g1.class_parents(keep as int).len() implies g1.class_parents(
                keep as int,
            )[j] == (g0.class_parents(keep as int) + g0.class_parents(lose as int))[j] by {
                let base = g0.classes@[keep as int].parents@.len() as int;
                assert(mid.classes@[keep as int].parents@ == g0.classes@[keep as int].parents@);
                assert(mid2.classes@[keep as int].parents@ == mid.classes@[keep as int].parents@);
                assert(mid2.classes@[lose as int].parents@ == g0.classes@[lose as int].parents@);
                assert(g1.classes@[keep as int].parents@ == mid3.classes@[keep as int].parents@);
                if j < base {
                    assert(mid3.classes@[keep as int].parents@[j] == mid2.classes@[keep as
                        int].parents@[j]);
                } else {
                    let k = j - base;
                    assert(nv(mid3.classes@[keep as int].parents@[base + k].0) == nv(
                        mid2.classes@[lose as int].parents@[k].0,
                    ));
                    assert(mid3.classes@[keep as int].parents@[base + k].1 == mid2.classes@[lose as
                        int].parents@[k].1);
                }
            }
            assert(g1.class_parents(keep as int) =~= g0.class_parents(keep as int)
                + g0.class_parents(lose as int));
            assert forall|q: int|
                0 <= q < g0.uf@.len() && q != keep && q != lose implies g1.class_parents(q)
                == g0.class_parents(q) by {
                assert(g1.classes@[q] == g0.classes@[q]);
            }
            assert forall|ii: int, j: int|
                0 <= ii < g1.classes@.len() && 0 <= j < g1.classes@[ii].parents@.len() implies
                shape_ok(nv(#[trigger] g1.classes@[ii].parents@[j].0), g1.n_slots()) && (
                g1.classes@[ii].parents@[j].1 as nat) < g1.n_slots() by {
                assert(g1.class_parents(ii)[j] == (
                    nv(g1.classes@[ii].parents@[j].0),
                    g1.classes@[ii].parents@[j].1,
                ));
                if ii == keep {
                    let base = g0.class_parents(keep as int).len() as int;
                    if j < base {
                        assert(g1.class_parents(keep as int)[j] == g0.class_parents(
                            keep as int,
                        )[j]);
                        assert(g0.class_parents(keep as int)[j] == (
                            nv(g0.classes@[keep as int].parents@[j].0),
                            g0.classes@[keep as int].parents@[j].1,
                        ));
                        assert(shape_ok(
                            nv(g0.classes@[keep as int].parents@[j].0),
                            g0.n_slots(),
                        ));
                    } else {
                        let kx = j - base;
                        assert(g1.class_parents(keep as int)[j] == g0.class_parents(
                            lose as int,
                        )[kx]);
                        assert(g0.class_parents(lose as int)[kx] == (
                            nv(g0.classes@[lose as int].parents@[kx].0),
                            g0.classes@[lose as int].parents@[kx].1,
                        ));
                        assert(shape_ok(
                            nv(g0.classes@[lose as int].parents@[kx].0),
                            g0.n_slots(),
                        ));
                    }
                } else if ii == lose {
                    assert(g1.classes@[ii].parents@.len() == 0);
                } else {
                    assert(g1.classes@[ii] == g0.classes@[ii]);
                    assert(shape_ok(nv(g0.classes@[ii].parents@[j].0), g0.n_slots()));
                }
            }
            assert(g1.uf.wf());
            assert(g1.classes@.len() == g1.n_slots());
            assert(g1.memo@ == mid3.memo@);
            assert(mid3.memo@ == mid2.memo@);
            assert(mid2.memo@ == mid.memo@);
            assert(mid.memo@ == g0.memo@);
            assert(g1.memo@ == g0.memo@);
            assert forall|k: int| 0 <= k < g1.memo@.len() implies shape_ok(
                nv(#[trigger] g1.memo@[k].0),
                g1.n_slots(),
            ) && (g1.memo@[k].1 as nat) < g1.n_slots() by {
                assert(g1.memo@[k] == g0.memo@[k]);
            }
            assert forall|k: int| 0 <= k < g1.worklist@.len() implies (
            #[trigger] g1.worklist@[k] as nat) < g1.n_slots() by {
                if k < g0.worklist@.len() {
                    assert(g1.worklist@[k] == g0.worklist@[k]);
                } else {
                    assert(g1.worklist@[k] == keep);
                }
            }
            assert(g1.wf());
        }
        true
    }

    /// Insert every node of a flat expression in dependency order
    /// (children before parents) and return the root's id: the class the
    /// hash-cons table answers for the root's canonicalized shape
    /// ([`expr_consed`]). Existing equivalences and the merge counter are
    /// untouched: insertion only reuses or creates slots.
    pub fn add_expr(&mut self, anal: &ExprAnalysis, expr: &RecExpr) -> (r: Id)
        requires
            old(self).wf(),
            expr.wf(),
            old(self).n_slots() + expr@.len() <= usize::MAX,
        ensures
            final(self).wf(),
            (r as nat) < final(self).n_slots(),
            final(self).merges == old(self).merges,
            final(self).n_slots() <= old(self).n_slots() + expr@.len(),
            final(self).worklist@ == old(self).worklist@,
            forall|q: int| 0 <= q < old(self).n_slots() ==> final(self).uf@[q] == old(
                self,
            ).uf@[q],
            exists|ids: Seq<Id>| expr_consed(*final(self), expr@, ids, r),
    {
        let ghost g0 = *old(self);
        let n = expr.len();
        let mut ids: Vec<Id> = Vec::new();
        let mut i: usize = 0;
        while i < n
            invariant
                self.wf(),
                expr.wf(),
                n == expr@.len(),
                i <= n,
                ids@.len() == i,
                g0.n_slots() + n <= usize::MAX,
                self.n_slots() <= g0.n_slots() + i,
                self.n_slots() >= g0.n_slots(),
                self.merges == g0.merges,
                self.worklist@ == g0.worklist@,
                forall|k: int|
                    0 <= k < i ==> (#[trigger] ids@[k] as nat) < self.n_slots()
                        && self.uf@[ids@[k] as int] == ids@[k],
                forall|q: int| 0 <= q < g0.n_slots() ==> self.uf@[q] == g0.uf@[q],
                forall|k: int|
                    #![trigger expr@[k]]
                    0 <= k < i ==> exists|slot: Id|
                        #![auto]
                        memo_find(
                            memo_keys(self.memo@),
                            (expr@[k].0, expr@[k].1.map_values(|c: Id| ids@[c as int])),
                        ) == Some(slot) && (slot as nat) < self.n_slots() && self.uf@[slot as int]
                            == ids@[k],
            decreases n - i,
        {
            let node = expr.node(i);
            let mut ch: Vec<Id> = Vec::new();
            let mut j: usize = 0;
            while j < node.children.len()
                invariant
                    i < n,
                    n == expr@.len(),
                    expr.wf(),
                    nv(*node) == expr@[i as int],
                    ids@.len() == i,
                    j <= node.children@.len(),
                    ch@.len() == j,
                    forall|k: int|
                        0 <= k < i ==> (#[trigger] ids@[k] as nat) < self.n_slots()
                            && self.uf@[ids@[k] as int] == ids@[k],
                    forall|k: int| 0 <= k < j ==> ch@[k] == ids@[node.children@[k] as int],
                decreases node.children@.len() - j,
            {
                proof {
                    assert(shape_ok(expr@[i as int], i as nat));
                    assert((node.children@[j as int] as nat) < i as nat);
                }
                ch.push(ids[node.children[j]]);
                j = j + 1;
            }
            let en = ENode { op: node.op, children: ch };
            proof {
                assert(shape_ok(expr@[i as int], i as nat));
                assert(arity_ok(en.op, en.children@.len()));
                assert forall|k: int| 0 <= k < en.children@.len() implies (
                #[trigger] en.children@[k] as nat) < self.n_slots() by {
                    assert(en.children@[k] == ids@[node.children@[k] as int]);
                }
                assert(shape_ok(nv(en), self.n_slots()));
            }
            let ghost pre = *self;
            let ghost key = (
                expr@[i as int].0,
                expr@[i as int].1.map_values(|c: Id| ids@[c as int]),
            );
            let id = self.add_node(anal, en);
            proof {
                // The node's canonicalized shape is the expression key:
                // each child id is already a canonical root.
                assert(canon_ch(pre.uf@, en.children@) =~= expr@[i as int].1.map_values(
                    |c: Id| ids@[c as int],
                )) by {
                    assert forall|k: int| 0 <= k < en.children@.len() implies pre.uf@[
                    #[trigger] en.children@[k] as int] == ids@[node.children@[k] as int] by {
                        assert(en.children@[k] == ids@[node.children@[k] as int]);
                    }
                }
                assert((en.op, canon_ch(pre.uf@, en.children@)) == key);
                match memo_find(memo_keys(pre.memo@), key) {
                    Some(hit) => {
                        assert(*self == pre);
                        assert(id == pre.uf@[hit as int]);
                        lemma_memo_find_some(memo_keys(pre.memo@), key, hit);
                        let kk = choose|kk: int|
                            0 <= kk < memo_keys(pre.memo@).len() && #[trigger] memo_keys(
                                pre.memo@,
                            )[kk] == (key, hit);
                        assert(memo_keys(pre.memo@)[kk] == (nv(pre.memo@[kk].0), pre.memo@[kk].1));
                        assert((hit as nat) < self.n_slots());
                        assert(self.uf@[hit as int] == id);
                        assert(self.uf@[id as int] == id);
                        assert(memo_keys(self.memo@).subrange(
                            0,
                            memo_keys(pre.memo@).len() as int,
                        ) =~= memo_keys(pre.memo@));
                        assert(exists|slot: Id|
                            #![auto]
                            memo_find(memo_keys(self.memo@), key) == Some(slot) && (slot as nat)
                                < self.n_slots() && self.uf@[slot as int] == id);
                    },
                    None => {
                        assert(id == pre.n_slots());
                        lemma_memo_find_push(memo_keys(pre.memo@), key, (key, id));
                        assert(memo_find(memo_keys(self.memo@), key) == Some(id));
                        assert(self.uf@[id as int] == id);
                        assert(memo_keys(pre.memo@).is_prefix_of(memo_keys(self.memo@)));
                        assert(exists|slot: Id|
                            #![auto]
                            memo_find(memo_keys(self.memo@), key) == Some(slot) && (slot as nat)
                                < self.n_slots() && self.uf@[slot as int] == id);
                    },
                }
                assert(memo_keys(pre.memo@).is_prefix_of(memo_keys(self.memo@)));
                assert(self.uf@[id as int] == id);
                assert(exists|slot: Id|
                    #![auto]
                    memo_find(memo_keys(self.memo@), key) == Some(slot) && (slot as nat)
                        < self.n_slots() && self.uf@[slot as int] == id);
                // Earlier positions keep their table answers: the table
                // only grew and the union-find entries of old slots are
                // untouched.
                assert forall|k: int| #![trigger expr@[k]] 0 <= k < i implies exists|slot: Id|
                    #![auto]
                    memo_find(
                        memo_keys(self.memo@),
                        (expr@[k].0, expr@[k].1.map_values(|c: Id| ids@[c as int])),
                    ) == Some(slot) && (slot as nat) < self.n_slots() && self.uf@[slot as int]
                        == ids@[k] by {
                    let key_k = (expr@[k].0, expr@[k].1.map_values(|c: Id| ids@[c as int]));
                    let slot = choose|slot: Id|
                        #![auto]
                        memo_find(memo_keys(pre.memo@), key_k) == Some(slot) && (slot as nat)
                            < pre.n_slots() && pre.uf@[slot as int] == ids@[k];
                    lemma_memo_find_prefix(memo_keys(pre.memo@), memo_keys(self.memo@), key_k);
                    assert(memo_find(memo_keys(self.memo@), key_k) == Some(slot));
                    assert(self.uf@[slot as int] == pre.uf@[slot as int]);
                }
            }
            let ghost ids_pre = ids@;
            ids.push(id);
            proof {
                assert forall|k: int| #![trigger expr@[k]] 0 <= k < i + 1 implies exists|slot: Id|
                    #![auto]
                    memo_find(
                        memo_keys(self.memo@),
                        (expr@[k].0, expr@[k].1.map_values(|c: Id| ids@[c as int])),
                    ) == Some(slot) && (slot as nat) < self.n_slots() && self.uf@[slot as int]
                        == ids@[k] by {
                    assert(shape_ok(expr@[k], k as nat));
                    assert(expr@[k].1.map_values(|c: Id| ids@[c as int]) =~= expr@[k].1.map_values(
                        |c: Id| ids_pre[c as int],
                    )) by {
                        assert forall|jz: int| 0 <= jz < expr@[k].1.len() implies ids@[
                        #[trigger] expr@[k].1[jz] as int] == ids_pre[expr@[k].1[jz] as int] by {
                            assert((expr@[k].1[jz] as nat) < k as nat);
                        }
                    }
                    if k == i {
                        assert((expr@[k].0, expr@[k].1.map_values(|c: Id| ids_pre[c as int]))
                            == key);
                        assert(ids@[k] == id);
                    } else {
                        assert(ids@[k] == ids_pre[k]);
                    }
                }
            }
            i = i + 1;
        }
        proof {
            assert(n >= 1);
            assert(expr_consed(*self, expr@, ids@, ids@[n - 1]));
        }
        ids[n - 1]
    }

    /// Scan every pair of member nodes for a congruence violation: two
    /// nodes with equal canonicalized shapes whose slots answer to
    /// different classes. Returns such a pair of slots, or `None` when the
    /// whole graph is congruent.
    fn find_congruent_pair(&self) -> (r: Option<(Id, Id)>)
        requires
            self.wf(),
        ensures
            r is None ==> congruent(*self),
            r matches Some(p) ==> (p.0 as nat) < self.n_slots() && (p.1 as nat) < self.n_slots()
                && self.uf@[p.0 as int] != self.uf@[p.1 as int],
    {
        let n = self.uf.len();
        let mut s1: usize = 0;
        while s1 < n
            invariant
                self.wf(),
                n == self.n_slots(),
                s1 <= n,
                forall|a: int, b: int, c: int, d: int|
                    0 <= a < s1 && 0 <= b < self.class_nodes(a).len() && 0 <= c < n && 0 <= d
                        < self.class_nodes(c).len() ==> #[trigger] pair_ok(*self, a, b, c, d),
            decreases n - s1,
        {
            let m1 = self.classes[s1].nodes.len();
            let mut k1: usize = 0;
            while k1 < m1
                invariant
                    self.wf(),
                    n == self.n_slots(),
                    s1 < n,
                    m1 == self.classes@[s1 as int].nodes@.len(),
                    k1 <= m1,
                    forall|a: int, b: int, c: int, d: int|
                        0 <= a < s1 && 0 <= b < self.class_nodes(a).len() && 0 <= c < n && 0 <= d
                            < self.class_nodes(c).len() ==> #[trigger] pair_ok(*self, a, b, c, d),
                    forall|b: int, c: int, d: int|
                        0 <= b < k1 && 0 <= c < n && 0 <= d < self.class_nodes(c).len()
                            ==> #[trigger] pair_ok(*self, s1 as int, b, c, d),
                decreases m1 - k1,
            {
                let node1 = &self.classes[s1].nodes[k1];
                proof {
                    assert(shape_ok(nv(self.classes@[s1 as int].nodes@[k1 as int]), self.n_slots()));
                }
                let c1 = self.canonicalize(node1);
                let r1 = self.uf.find(s1);
                let mut s2: usize = 0;
                while s2 < n
                    invariant
                        self.wf(),
                        n == self.n_slots(),
                        s1 < n,
                        k1 < self.class_nodes(s1 as int).len(),
                        s2 <= n,
                        nv(c1) == (
                            self.class_nodes(s1 as int)[k1 as int].0,
                            canon_ch(self.uf@, self.class_nodes(s1 as int)[k1 as int].1),
                        ),
                        r1 == self.uf@[s1 as int],
                        forall|c: int, d: int|
                            0 <= c < s2 && 0 <= d < self.class_nodes(c).len()
                                ==> #[trigger] pair_ok(*self, s1 as int, k1 as int, c, d),
                    decreases n - s2,
                {
                    let m2 = self.classes[s2].nodes.len();
                    let mut k2: usize = 0;
                    while k2 < m2
                        invariant
                            self.wf(),
                            n == self.n_slots(),
                            s1 < n,
                            k1 < self.class_nodes(s1 as int).len(),
                            s2 < n,
                            m2 == self.classes@[s2 as int].nodes@.len(),
                            k2 <= m2,
                            nv(c1) == (
                                self.class_nodes(s1 as int)[k1 as int].0,
                                canon_ch(self.uf@, self.class_nodes(s1 as int)[k1 as int].1),
                            ),
                            r1 == self.uf@[s1 as int],
                            forall|d: int|
                                0 <= d < k2 ==> #[trigger] pair_ok(
                                    *self,
                                    s1 as int,
                                    k1 as int,
                                    s2 as int,
                                    d,
                                ),
                        decreases m2 - k2,
                    {
                        let node2 = &self.classes[s2].nodes[k2];
                        proof {
                            assert(shape_ok(
                                nv(self.classes@[s2 as int].nodes@[k2 as int]),
                                self.n_slots(),
                            ));
                        }
                        let c2 = self.canonicalize(node2);
                        proof {
                            assert(nv(c2) == (
                                self.class_nodes(s2 as int)[k2 as int].0,
                                canon_ch(self.uf@, self.class_nodes(s2 as int)[k2 as int].1),
                            ));
                        }
                        if c1.eq_shape(&c2) {
                            let r2 = self.uf.find(s2);
                            if r1 != r2 {
                                return Some((s1, s2));
                            }
                            proof {
                                assert(pair_ok(*self, s1 as int, k1 as int, s2 as int, k2 as int));
                            }
                        } else {
                            proof {
                                assert(pair_ok(*self, s1 as int, k1 as int, s2 as int, k2 as int));
                            }
                        }
                        k2 = k2 + 1;
                    }
                    s2 = s2 + 1;
                }
                k1 = k1 + 1;
            }
            s1 = s1 + 1;
        }
        None
    }

    /// Congruence repair, run to a fixpoint: as long as two member nodes
    /// with equal canonicalized shapes lie in different classes, those
    /// classes are folded together (which may expose further collisions).
    /// Afterwards the congruence invariant holds of the whole graph and
    /// the dirtiness worklist is empty. An already-clean graph (empty
    /// worklist) is left untouched. Existing equivalences are never split,
    /// only extended, and a run that folds nothing changes nothing.
    pub fn rebuild(&mut self)
        requires
            old(self).wf(),
        ensures
            final(self).wf(),
            final(self).worklist@.len() == 0,
            final(self).n_slots() == old(self).n_slots(),
            final(self).merges >= old(self).merges,
            final(self).uf.spec_roots() <= old(self).uf.spec_roots(),
            memo_keys(final(self).memo@) == memo_keys(old(self).memo@),
            forall|i: int, j: int|
                0 <= i < old(self).n_slots() && 0 <= j < old(self).n_slots() && old(self).uf@[i]
                    == old(self).uf@[j] ==> final(self).uf@[i] == final(self).uf@[j],
            old(self).worklist@.len() == 0 ==> *final(self) == *old(self),
            old(self).worklist@.len() > 0 ==> congruent(*final(self)),
            final(self).uf.spec_roots() == old(self).uf.spec_roots() ==> final(self).uf@ == old(
                self,
            ).uf@ && final(self).classes@ == old(self).classes@,
    {
        if self.worklist.len() == 0 {
            return ;
        }
        let ghost g0 = *old(self);
        self.worklist = Vec::new();
        proof {
            assert(self.worklist@.len() == 0);
            assert(self.wf());
        }
        loop
            invariant
                self.wf(),
                g0.wf(),
                self.n_slots() == g0.n_slots(),
                self.merges >= g0.merges,
                self.worklist@.len() == 0,
                self.uf.spec_roots() <= g0.uf.spec_roots(),
                memo_keys(self.memo@) == memo_keys(g0.memo@),
                forall|i: int, j: int|
                    0 <= i < g0.n_slots() && 0 <= j < g0.n_slots() && g0.uf@[i] == g0.uf@[j]
                        ==> self.uf@[i] == self.uf@[j],
                self.uf.spec_roots() == g0.uf.spec_roots() ==> self.uf@ == g0.uf@ && self.classes@
                    == g0.classes@,
            ensures
                self.wf(),
                self.worklist@.len() == 0,
                congruent(*self),
                self.n_slots() == g0.n_slots(),
                self.merges >= g0.merges,
                self.uf.spec_roots() <= g0.uf.spec_roots(),
                memo_keys(self.memo@) == memo_keys(g0.memo@),
                forall|i: int, j: int|
                    0 <= i < g0.n_slots() && 0 <= j < g0.n_slots() && g0.uf@[i] == g0.uf@[j]
                        ==> self.uf@[i] == self.uf@[j],
                self.uf.spec_roots() == g0.uf.spec_roots() ==> self.uf@ == g0.uf@ && self.classes@
                    == g0.classes@,
            decreases self.uf.spec_roots(),
        {
            match self.find_congruent_pair() {
                Some(p) => {
                    let ghost pre = *self;
                    let merged = self.unite(p.0, p.1);
                    proof {
                        assert(merged);
                        assert(self.uf.spec_roots() == pre.uf.spec_roots() - 1);
                        lemma_equiv_preserved(pre, *self, g0, p.0, p.1);
                    }
                    self.worklist = Vec::new();
                },
                None => {
                    break ;
                },
            }
        }
    }

    /// State after `make_set` inside `add_node`, before the class arena
    /// catches up: everything well-formed except that the class arena is
    /// one entry short.
    pub open spec fn wf_after_make(self, g0: EGraph, id: Id) -> bool {
        &&& self.uf.wf()
        &&& self.uf@ == g0.uf@.push(id)
        &&& self.classes@ == g0.classes@
        &&& self.memo@ == g0.memo@
        &&& self.worklist@ == g0.worklist@
        &&& self.merges == g0.merges
        &&& g0.wf()
    }

    /// Invariant of the parent-registration loop at the end of `add_node`:
    /// the new slot, class, and hash-cons entry are in place; only parent
    /// lists of child classes are still being extended.
    pub open spec fn parents_loop_inv(
        self,
        g0: EGraph,
        id: Id,
        anal: &ExprAnalysis,
        node: ENode,
        cn: ENode,
        key: NodeV,
    ) -> bool {
        &&& self.wf()
        &&& g0.wf()
        &&& id == g0.n_slots()
        &&& key == (node.op, canon_ch(g0.uf@, node.children@))
        &&& nv(cn) == key
        &&& self.n_slots() == g0.n_slots() + 1
        &&& self.uf@ == g0.uf@.push(id)
        &&& self.uf.spec_roots() == g0.uf.spec_roots() + 1
        &&& memo_keys(self.memo@) == memo_keys(g0.memo@).push((key, id))
        &&& self.class_nodes(id as int) == seq![key]
        &&& self.class_rows(id as int) == rows_of(
            node.op,
            class_child_rows(g0, node.children@),
            anal.stat.table_rows@,
        )
        &&& forall|i: int|
            0 <= i < g0.n_slots() ==> self.class_nodes(i) == g0.class_nodes(i) && self.class_rows(
                i,
            ) == g0.class_rows(i)
        &&& self.worklist@ == g0.worklist@
        &&& self.merges == g0.merges
    }
}

} // verus!
