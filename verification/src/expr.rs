//! The expression model: operator tags and nodes.
//!
//! An `ENode` is a tagged operator with zero or more ordered child
//! references. Equality is structural: operator tag plus child identities,
//! nothing else. The same node shape is used inside a flat expression
//! (`RecExpr`), where children are positions, and inside the e-graph, where
//! children are equivalence-class ids. Contracts speak of nodes through
//! their mathematical view [`nv`], a pair of the operator and the child
//! sequence.

use vstd::prelude::*;

verus! {

/// An integer handle. In a `RecExpr` it addresses a position; in an e-graph
/// it addresses a node-creation slot or, after union-find folding, a
/// canonical equivalence class.
pub type Id = usize;

/// Mathematical view of a node: its operator and its child sequence.
pub type NodeV = (Op, Seq<Id>);

/// Operator tag. Plan operators produce row sets; scalar operators produce
/// values. Leaf tags carry their payload directly.
#[derive(Clone, Copy, PartialEq, Eq, Structural, Debug)]
pub enum Op {
    /// Literal value (leaf).
    Constant(i64),
    /// Column reference by ordinal (leaf).
    Column(u64),
    /// Base table by id (leaf).
    Table(u64),
    /// Full table scan: `[table]`.
    Scan,
    /// Sequential scan: `[table]`.
    SeqScan,
    /// Index lookup scan: `[table, column, value]`.
    IndexScan,
    /// Row filter: `[condition, child]`.
    Filter,
    /// Projection: `[columns, child]`.
    Proj,
    /// Hash aggregation: `[keys, child]`.
    HashAgg,
    /// Sort: `[keys, child]`.
    Order,
    /// Limited sort: `[limit, keys, child]`.
    TopN,
    /// Nested-loop join: `[condition, left, right]`.
    Join,
    /// Hash join: `[condition, left, right]`.
    HashJoin,
    /// Merge join: `[condition, left, right]`.
    MergeJoin,
    /// Literal rows: `[list]`.
    Values,
    /// Scalar addition: `[a, b]`.
    Add,
    /// Scalar subtraction: `[a, b]`.
    Sub,
    /// Scalar multiplication: `[a, b]`.
    Mul,
    /// Scalar division: `[a, b]`.
    Div,
    /// Greater-than comparison: `[a, b]`.
    Gt,
    /// Less-than comparison: `[a, b]`.
    Lt,
    /// Equality comparison: `[a, b]`.
    Equal,
    /// Logical conjunction: `[a, b]`.
    And,
    /// Logical disjunction: `[a, b]`.
    Or,
    /// Logical negation: `[a]`.
    Not,
    /// Ordered list of expressions: any number of children.
    List,
    /// Reference to another expression: `[a]`.
    Ref,
}

/// A tagged operator with ordered child references.
#[derive(Debug)]
pub struct ENode {
    pub op: Op,
    pub children: Vec<Id>,
}

/// The mathematical view of a node.
pub open spec fn nv(n: ENode) -> NodeV {
    (n.op, n.children@)
}

impl Op {
    /// Number of children the operator takes, or `None` for a variable
    /// number (`List`).
    pub open spec fn spec_arity(self) -> Option<usize> {
        match self {
            Op::Constant(_) => Some(0usize),
            Op::Column(_) => Some(0usize),
            Op::Table(_) => Some(0usize),
            Op::Scan => Some(1usize),
            Op::SeqScan => Some(1usize),
            Op::IndexScan => Some(3usize),
            Op::Filter => Some(2usize),
            Op::Proj => Some(2usize),
            Op::HashAgg => Some(2usize),
            Op::Order => Some(2usize),
            Op::TopN => Some(3usize),
            Op::Join => Some(3usize),
            Op::HashJoin => Some(3usize),
            Op::MergeJoin => Some(3usize),
            Op::Values => Some(1usize),
            Op::Add => Some(2usize),
            Op::Sub => Some(2usize),
            Op::Mul => Some(2usize),
            Op::Div => Some(2usize),
            Op::Gt => Some(2usize),
            Op::Lt => Some(2usize),
            Op::Equal => Some(2usize),
            Op::And => Some(2usize),
            Op::Or => Some(2usize),
            Op::Not => Some(1usize),
            Op::List => None,
            Op::Ref => Some(1usize),
        }
    }

    /// Executable arity, equal to the specification one.
    pub fn arity(self) -> (r: Option<usize>)
        ensures
            r == self.spec_arity(),
    {
        match self {
            Op::Constant(_) => Some(0usize),
            Op::Column(_) => Some(0usize),
            Op::Table(_) => Some(0usize),
            Op::Scan => Some(1usize),
            Op::SeqScan => Some(1usize),
            Op::IndexScan => Some(3usize),
            Op::Filter => Some(2usize),
            Op::Proj => Some(2usize),
            Op::HashAgg => Some(2usize),
            Op::Order => Some(2usize),
            Op::TopN => Some(3usize),
            Op::Join => Some(3usize),
            Op::HashJoin => Some(3usize),
            Op::MergeJoin => Some(3usize),
            Op::Values => Some(1usize),
            Op::Add => Some(2usize),
            Op::Sub => Some(2usize),
            Op::Mul => Some(2usize),
            Op::Div => Some(2usize),
            Op::Gt => Some(2usize),
            Op::Lt => Some(2usize),
            Op::Equal => Some(2usize),
            Op::And => Some(2usize),
            Op::Or => Some(2usize),
            Op::Not => Some(1usize),
            Op::List => None,
            Op::Ref => Some(1usize),
        }
    }
}

impl Op {
    /// Whether the operator is a plan operator — one that produces a row
    /// set — as opposed to a scalar one.
    pub open spec fn spec_is_plan(self) -> bool {
        match self {
            Op::Scan => true,
            Op::SeqScan => true,
            Op::IndexScan => true,
            Op::Filter => true,
            Op::Proj => true,
            Op::HashAgg => true,
            Op::Order => true,
            Op::TopN => true,
            Op::Join => true,
            Op::HashJoin => true,
            Op::MergeJoin => true,
            Op::Values => true,
            _ => false,
        }
    }

    /// Executable plan-operator test, equal to the specification one.
    pub fn is_plan(self) -> (r: bool)
        ensures
            r == self.spec_is_plan(),
    {
        match self {
            Op::Scan => true,
            Op::SeqScan => true,
            Op::IndexScan => true,
            Op::Filter => true,
            Op::Proj => true,
            Op::HashAgg => true,
            Op::Order => true,
            Op::TopN => true,
            Op::Join => true,
            Op::HashJoin => true,
            Op::MergeJoin => true,
            Op::Values => true,
            _ => false,
        }
    }
}

/// Whether a child count fits the operator's arity.
pub open spec fn arity_ok(op: Op, n: nat) -> bool {
    match op.spec_arity() {
        Some(k) => n == k,
        None => true,
    }
}

/// A node view is shaped well when its child count fits its operator and
/// every child id lies below `bound`.
pub open spec fn shape_ok(v: NodeV, bound: nat) -> bool {
    &&& arity_ok(v.0, v.1.len())
    &&& forall|j: int| 0 <= j < v.1.len() ==> (v.1[j] as nat) < bound
}

impl ENode {
    /// Build a node from an operator and children.
    pub fn mk(op: Op, children: Vec<Id>) -> (r: ENode)
        ensures
            nv(r) == (op, children@),
    {
        ENode { op, children }
    }

    /// A leaf node (no children).
    pub fn leaf(op: Op) -> (r: ENode)
        ensures
            nv(r) == (op, Seq::<Id>::empty()),
    {
        let children: Vec<Id> = Vec::new();
        ENode { op, children }
    }

    /// An identical copy of the node.
    pub fn duplicate(&self) -> (r: ENode)
        ensures
            nv(r) == nv(*self),
    {
        let mut children: Vec<Id> = Vec::new();
        let mut j: usize = 0;
        while j < self.children.len()
            invariant
                j <= self.children.len(),
                children@ == self.children@.subrange(0, j as int),
            decreases self.children.len() - j,
        {
            children.push(self.children[j]);
            j = j + 1;
        }
        assert(children@ == self.children@);
        ENode { op: self.op, children }
    }

    /// Structural equality test: operator tag and child identities.
    pub fn eq_shape(&self, other: &ENode) -> (r: bool)
        ensures
            r == (nv(*self) == nv(*other)),
    {
        if self.op != other.op {
            return false;
        }
        if self.children.len() != other.children.len() {
            assert(self.children@ != other.children@);
            return false;
        }
        let mut j: usize = 0;
        while j < self.children.len()
            invariant
                j <= self.children.len(),
                self.children@.len() == other.children@.len(),
                self.op == other.op,
                forall|k: int| 0 <= k < j ==> self.children@[k] == other.children@[k],
            decreases self.children.len() - j,
        {
            if self.children[j] != other.children[j] {
                assert(self.children@ != other.children@);
                return false;
            }
            j = j + 1;
        }
        assert(self.children@ =~= other.children@);
        true
    }
}

} // verus!
