//! Flat expressions and the optimizer's error type.
//!
//! A `RecExpr` is an immutable, flattened, DAG-shaped sequence of nodes:
//! each node's children are indices strictly earlier in the sequence, and
//! the last index is the root. It represents one concrete expression with
//! no alternatives.

use vstd::prelude::*;

use crate::expr::{nv, shape_ok, ENode, NodeV};

verus! {

/// Errors the optimizer reports. Malformed input is a contract violation
/// by the upstream producer and is reported immediately, never repaired.
#[derive(Clone, Copy, PartialEq, Eq, Structural, Debug)]
pub enum PlanError {
    /// The node sequence is empty, so there is no root.
    EmptyExpr,
    /// A node references a child at or after its own position.
    ForwardChild,
    /// A node's child count does not fit its operator.
    WrongArity,
    /// An internal invariant was violated: extraction found no usable
    /// member for a class. Unreachable through the public pipeline.
    NoBestPlan,
}

/// An immutable, flattened expression. Built only through [`RecExpr::build`],
/// so every value is well-formed.
#[derive(Debug)]
pub struct RecExpr {
    nodes: Vec<ENode>,
}

/// Number of plan operators among the node views.
pub open spec fn plan_ops(nodes: Seq<NodeV>) -> int
    decreases nodes.len(),
{
    if nodes.len() == 0 {
        0
    } else {
        plan_ops(nodes.drop_last()) + if nodes.last().0.spec_is_plan() {
            1int
        } else {
            0int
        }
    }
}

/// Every node's children point strictly earlier in the sequence and child
/// counts fit the operators; the sequence is nonempty.
pub open spec fn nodes_wf(nodes: Seq<NodeV>) -> bool {
    &&& nodes.len() > 0
    &&& forall|i: int| 0 <= i < nodes.len() ==> shape_ok(#[trigger] nodes[i], i as nat)
}

impl RecExpr {
    /// The sequence of node views.
    pub closed spec fn view(self) -> Seq<NodeV> {
        self.nodes@.map_values(|n: ENode| nv(n))
    }

    /// Well-formedness; holds of every value built through [`RecExpr::build`].
    pub open spec fn wf(self) -> bool {
        nodes_wf(self@)
    }

    /// Validate a node sequence and wrap it. Returns `Ok` exactly when the
    /// sequence is nonempty, every child reference points strictly earlier,
    /// and every child count fits its operator; the error names the first
    /// violation found.
    pub fn build(nodes: Vec<ENode>) -> (r: Result<RecExpr, PlanError>)
        ensures
            r is Ok <==> nodes_wf(nodes@.map_values(|n: ENode| nv(n))),
            r matches Ok(e) ==> e@ == nodes@.map_values(|n: ENode| nv(n)) && e.wf(),
    {
        let ghost view = nodes@.map_values(|n: ENode| nv(n));
        if nodes.len() == 0 {
            return Err(PlanError::EmptyExpr);
        }
        let mut i: usize = 0;
        while i < nodes.len()
            invariant
                i <= nodes.len(),
                view == nodes@.map_values(|n: ENode| nv(n)),
                forall|k: int| 0 <= k < i ==> shape_ok(#[trigger] view[k], k as nat),
            decreases nodes.len() - i,
        {
            let node = &nodes[i];
            assert(view[i as int] == nv(*node));
            match node.op.arity() {
                Some(k) => {
                    if node.children.len() != k {
                        assert(!shape_ok(view[i as int], i as nat));
                        return Err(PlanError::WrongArity);
                    }
                },
                None => {},
            }
            let mut j: usize = 0;
            while j < node.children.len()
                invariant
                    j <= node.children.len(),
                    i < nodes.len(),
                    nv(*node) == view[i as int],
                    view == nodes@.map_values(|n: ENode| nv(n)),
                    forall|k: int| 0 <= k < j ==> (node.children@[k] as nat) < i as nat,
                decreases node.children.len() - j,
            {
                if node.children[j] >= i {
                    assert(!shape_ok(view[i as int], i as nat));
                    return Err(PlanError::ForwardChild);
                }
                j = j + 1;
            }
            assert(shape_ok(view[i as int], i as nat));
            i = i + 1;
        }
        Ok(RecExpr { nodes })
    }

    /// Number of nodes.
    pub fn len(&self) -> (r: usize)
        ensures
            r == self@.len(),
    {
        self.nodes.len()
    }

    /// The node at a position.
    pub fn node(&self, i: usize) -> (r: &ENode)
        requires
            i < self@.len(),
        ensures
            nv(*r) == self@[i as int],
    {
        &self.nodes[i]
    }

    /// Index of the root node (the last position).
    pub fn root(&self) -> (r: usize)
        requires
            self@.len() > 0,
        ensures
            r == self@.len() - 1,
    {
        self.nodes.len() - 1
    }

    /// Number of plan operators (scans, filters, joins and the like) in
    /// the expression.
    pub fn count_plan_ops(&self) -> (r: usize)
        ensures
            r == plan_ops(self@),
    {
        let mut cnt: usize = 0;
        let mut i: usize = 0;
        proof {
            assert(self@.subrange(0, 0) =~= Seq::<NodeV>::empty());
        }
        while i < self.nodes.len()
            invariant
                i <= self.nodes@.len(),
                self@.len() == self.nodes@.len(),
                cnt <= i,
                cnt == plan_ops(self@.subrange(0, i as int)),
            decreases self.nodes@.len() - i,
        {
            proof {
                let pre = self@.subrange(0, i as int);
                let post = self@.subrange(0, i as int + 1);
                assert(post.drop_last() =~= pre);
                assert(post.last() == self@[i as int]);
                assert(self@[i as int] == nv(self.nodes@[i as int]));
            }
            if self.nodes[i].op.is_plan() {
                cnt = cnt + 1;
            }
            i = i + 1;
        }
        proof {
            assert(self@.subrange(0, self@.len() as int) =~= self@);
        }
        cnt
    }

    /// An identical copy of the expression.
    pub fn duplicate(&self) -> (r: RecExpr)
        ensures
            r@ == self@,
    {
        let mut nodes: Vec<ENode> = Vec::new();
        let mut i: usize = 0;
        while i < self.nodes.len()
            invariant
                i <= self.nodes.len(),
                nodes@.len() == i,
                forall|k: int| 0 <= k < i ==> nv(#[trigger] nodes@[k]) == nv(self.nodes@[k]),
            decreases self.nodes.len() - i,
        {
            nodes.push(self.nodes[i].duplicate());
            i = i + 1;
        }
        let result = RecExpr { nodes };
        assert(result@ =~= self@);
        result
    }
}

} // verus!
