//! The pluggable cost and row-estimation policy, and its evaluation over a
//! flat expression.
//!
//! `rows_of` is the per-class analysis: an estimated output row count
//! computed from the children's estimates and the statistics source.
//! `base_cost` is the per-operator cost, evaluated over the children's row
//! estimates: a full scan scales with the table's row count, an index scan
//! with the estimated selectivity, a nested-loop join with the product of
//! its inputs' cardinalities, a hash join with their sum. The exact
//! formulas are a documented policy of this crate, not a universal
//! requirement; every base cost is at least one, which the extractor's
//! termination relies on. All arithmetic saturates.

use vstd::prelude::*;

use crate::analysis::{clamp_rows, table_rows_in, Statistics, ROWS_CAP};
use crate::expr::{Id, NodeV, Op};
use crate::recexpr::RecExpr;

verus! {

/// Saturating 64-bit addition.
pub open spec fn sat_add(a: u64, b: u64) -> u64 {
    if a + b > u64::MAX {
        u64::MAX
    } else {
        (a + b) as u64
    }
}

/// Saturating 64-bit multiplication.
pub open spec fn sat_mul(a: u64, b: u64) -> u64 {
    if a * b > u64::MAX {
        u64::MAX
    } else {
        (a * b) as u64
    }
}

/// Saturating sum of a sequence.
pub open spec fn sat_sum(s: Seq<u64>) -> u64
    decreases s.len(),
{
    if s.len() == 0 {
        0u64
    } else {
        sat_add(sat_sum(s.drop_last()), s.last())
    }
}

/// The value at position `i`, or 1 past the end. Keeps the policy total;
/// on well-formed nodes the default is never read.
pub open spec fn child_val(cr: Seq<u64>, i: int) -> u64 {
    if 0 <= i < cr.len() {
        cr[i]
    } else {
        1u64
    }
}

/// Estimated output rows of an operator, over its children's estimates
/// `cr` (in child order) and the statistics `stat`. Estimates are clamped
/// into `[1, ROWS_CAP]` where they enter (table lookups) and where they
/// could grow (joins).
pub open spec fn rows_of(op: Op, cr: Seq<u64>, stat: Seq<(u64, u64)>) -> u64 {
    match op {
        Op::Table(t) => clamp_rows(table_rows_in(stat, t)),
        Op::Scan => child_val(cr, 0),
        Op::SeqScan => child_val(cr, 0),
        Op::IndexScan => index_rows(child_val(cr, 0)),
        Op::Filter => half_rows(child_val(cr, 1)),
        Op::Proj => child_val(cr, 1),
        Op::HashAgg => half_rows(child_val(cr, 1)),
        Op::Order => child_val(cr, 1),
        Op::TopN => child_val(cr, 2),
        Op::Join => clamp_rows(sat_mul(child_val(cr, 1), child_val(cr, 2))),
        Op::HashJoin => clamp_rows(sat_mul(child_val(cr, 1), child_val(cr, 2))),
        Op::MergeJoin => clamp_rows(sat_mul(child_val(cr, 1), child_val(cr, 2))),
        Op::Ref => child_val(cr, 0),
        _ => 1u64,
    }
}

/// A filter is estimated to keep half its input, at least one row.
pub open spec fn half_rows(x: u64) -> u64 {
    if x / 2 < 1 {
        1u64
    } else {
        (x / 2) as u64
    }
}

/// An index lookup is estimated to touch an eighth of the table, at least
/// one row.
pub open spec fn index_rows(x: u64) -> u64 {
    if x / 8 < 1 {
        1u64
    } else {
        (x / 8) as u64
    }
}

/// Per-operator base cost, over the children's row estimates `cr`.
/// Always at least one ([`lemma_base_cost_pos`]).
pub open spec fn base_cost(op: Op, cr: Seq<u64>) -> u64 {
    match op {
        Op::Scan => sat_add(1, child_val(cr, 0)),
        Op::SeqScan => sat_add(1, child_val(cr, 0)),
        Op::IndexScan => sat_add(1, index_rows(child_val(cr, 0))),
        Op::Filter => sat_add(1, child_val(cr, 1)),
        Op::Proj => sat_add(1, child_val(cr, 1)),
        Op::HashAgg => sat_add(1, sat_mul(2, child_val(cr, 1))),
        Op::Order => sat_add(1, sat_mul(2, child_val(cr, 1))),
        Op::TopN => sat_add(1, child_val(cr, 2)),
        Op::Join => sat_add(1, sat_mul(child_val(cr, 1), child_val(cr, 2))),
        Op::HashJoin => sat_add(1, sat_add(child_val(cr, 1), child_val(cr, 2))),
        Op::MergeJoin => sat_add(1, sat_add(child_val(cr, 1), child_val(cr, 2))),
        _ => 1u64,
    }
}

/// Every base cost is strictly positive.
pub proof fn lemma_base_cost_pos(op: Op, cr: Seq<u64>)
    ensures
        base_cost(op, cr) >= 1,
{
}

/// Values of the children of a node, read out of `vals` by child id; ids
/// past the end read the neutral default.
pub open spec fn gather(vals: Seq<u64>, ch: Seq<Id>) -> Seq<u64> {
    ch.map_values(|c: Id| child_val(vals, c as int))
}

/// Row estimates of the first `n` nodes of a flat expression, bottom-up.
pub open spec fn rows_seq(nodes: Seq<NodeV>, stat: Seq<(u64, u64)>, n: int) -> Seq<u64>
    decreases n,
{
    if n <= 0 {
        Seq::<u64>::empty()
    } else {
        let prev = rows_seq(nodes, stat, n - 1);
        prev.push(rows_of(nodes[n - 1].0, gather(prev, nodes[n - 1].1), stat))
    }
}

/// Accumulated cost of the first `n` nodes: each node's cost is its base
/// cost plus the costs of its children (counted once per reference).
pub open spec fn cost_seq(nodes: Seq<NodeV>, stat: Seq<(u64, u64)>, n: int) -> Seq<u64>
    decreases n,
{
    if n <= 0 {
        Seq::<u64>::empty()
    } else {
        let prev = cost_seq(nodes, stat, n - 1);
        let rows_prev = rows_seq(nodes, stat, n - 1);
        prev.push(
            sat_add(
                base_cost(nodes[n - 1].0, gather(rows_prev, nodes[n - 1].1)),
                sat_sum(gather(prev, nodes[n - 1].1)),
            ),
        )
    }
}

/// Row estimates of every node of an expression.
pub open spec fn expr_rows(nodes: Seq<NodeV>, stat: Seq<(u64, u64)>) -> Seq<u64> {
    rows_seq(nodes, stat, nodes.len() as int)
}

/// Accumulated cost of every node of an expression.
pub open spec fn expr_costs(nodes: Seq<NodeV>, stat: Seq<(u64, u64)>) -> Seq<u64> {
    cost_seq(nodes, stat, nodes.len() as int)
}

/// Total cost of an expression: the accumulated cost at its root.
pub open spec fn expr_cost(nodes: Seq<NodeV>, stat: Seq<(u64, u64)>) -> u64 {
    expr_costs(nodes, stat).last()
}

/// The evaluation sequences have one entry per node considered.
pub proof fn lemma_eval_len(nodes: Seq<NodeV>, stat: Seq<(u64, u64)>, n: int)
    requires
        n >= 0,
    ensures
        rows_seq(nodes, stat, n).len() == n,
        cost_seq(nodes, stat, n).len() == n,
    decreases n,
{
    if n > 0 {
        lemma_eval_len(nodes, stat, n - 1);
    }
}

/// Saturating addition.
pub fn add_sat(a: u64, b: u64) -> (r: u64)
    ensures
        r == sat_add(a, b),
{
    match a.checked_add(b) {
        Some(v) => v,
        None => u64::MAX,
    }
}

/// Saturating multiplication.
pub fn mul_sat(a: u64, b: u64) -> (r: u64)
    ensures
        r == sat_mul(a, b),
{
    match a.checked_mul(b) {
        Some(v) => v,
        None => u64::MAX,
    }
}

/// Saturating sum of a vector.
pub fn sum_sat(s: &Vec<u64>) -> (r: u64)
    ensures
        r == sat_sum(s@),
{
    let mut acc: u64 = 0;
    let mut i: usize = 0;
    proof {
        assert(s@.subrange(0, 0) =~= Seq::<u64>::empty());
    }
    while i < s.len()
        invariant
            i <= s@.len(),
            acc == sat_sum(s@.subrange(0, i as int)),
        decreases s@.len() - i,
    {
        proof {
            let pre = s@.subrange(0, i as int);
            let post = s@.subrange(0, i as int + 1);
            assert(post.drop_last() =~= pre);
            assert(post.last() == s@[i as int]);
        }
        acc = add_sat(acc, s[i]);
        i = i + 1;
    }
    proof {
        assert(s@.subrange(0, s@.len() as int) =~= s@);
    }
    acc
}

/// Clamp a raw row estimate into `[1, ROWS_CAP]`.
pub fn clamp_rows_exec(x: u64) -> (r: u64)
    ensures
        r == clamp_rows(x),
{
    if x < 1 {
        1
    } else if x > ROWS_CAP {
        ROWS_CAP
    } else {
        x
    }
}

/// The child value at `i`, or the neutral default past the end.
fn child_val_exec(cr: &Vec<u64>, i: usize) -> (r: u64)
    ensures
        r == child_val(cr@, i as int),
{
    if i < cr.len() {
        cr[i]
    } else {
        1
    }
}

/// Estimated output rows of one operator.
pub fn rows_of_exec(op: Op, cr: &Vec<u64>, stat: &Statistics) -> (r: u64)
    ensures
        r == rows_of(op, cr@, stat.table_rows@),
{
    match op {
        Op::Table(t) => clamp_rows_exec(stat.rows_for(t)),
        Op::Scan => child_val_exec(cr, 0),
        Op::SeqScan => child_val_exec(cr, 0),
        Op::IndexScan => {
            let x = child_val_exec(cr, 0);
            if x / 8 < 1 {
                1
            } else {
                x / 8
            }
        },
        Op::Filter => {
            let x = child_val_exec(cr, 1);
            if x / 2 < 1 {
                1
            } else {
                x / 2
            }
        },
        Op::Proj => child_val_exec(cr, 1),
        Op::HashAgg => {
            let x = child_val_exec(cr, 1);
            if x / 2 < 1 {
                1
            } else {
                x / 2
            }
        },
        Op::Order => child_val_exec(cr, 1),
        Op::TopN => child_val_exec(cr, 2),
        Op::Join => clamp_rows_exec(mul_sat(child_val_exec(cr, 1), child_val_exec(cr, 2))),
        Op::HashJoin => clamp_rows_exec(mul_sat(child_val_exec(cr, 1), child_val_exec(cr, 2))),
        Op::MergeJoin => clamp_rows_exec(mul_sat(child_val_exec(cr, 1), child_val_exec(cr, 2))),
        Op::Ref => child_val_exec(cr, 0),
        _ => 1,
    }
}

/// Base cost of one operator.
pub fn base_cost_exec(op: Op, cr: &Vec<u64>) -> (r: u64)
    ensures
        r == base_cost(op, cr@),
{
    match op {
        Op::Scan => add_sat(1, child_val_exec(cr, 0)),
        Op::SeqScan => add_sat(1, child_val_exec(cr, 0)),
        Op::IndexScan => {
            let x = child_val_exec(cr, 0);
            let ix = if x / 8 < 1 {
                1
            } else {
                x / 8
            };
            add_sat(1, ix)
        },
        Op::Filter => add_sat(1, child_val_exec(cr, 1)),
        Op::Proj => add_sat(1, child_val_exec(cr, 1)),
        Op::HashAgg => add_sat(1, mul_sat(2, child_val_exec(cr, 1))),
        Op::Order => add_sat(1, mul_sat(2, child_val_exec(cr, 1))),
        Op::TopN => add_sat(1, child_val_exec(cr, 2)),
        Op::Join => add_sat(1, mul_sat(child_val_exec(cr, 1), child_val_exec(cr, 2))),
        Op::HashJoin => add_sat(1, add_sat(child_val_exec(cr, 1), child_val_exec(cr, 2))),
        Op::MergeJoin => add_sat(1, add_sat(child_val_exec(cr, 1), child_val_exec(cr, 2))),
        _ => 1,
    }
}

/// Read the children's values out of `vals` by child id.
pub fn gather_exec(vals: &Vec<u64>, ch: &Vec<Id>) -> (r: Vec<u64>)
    ensures
        r@ == gather(vals@, ch@),
{
    let mut r: Vec<u64> = Vec::new();
    let mut j: usize = 0;
    while j < ch.len()
        invariant
            j <= ch@.len(),
            r@.len() == j,
            forall|k: int| 0 <= k < j ==> r@[k] == child_val(vals@, ch@[k] as int),
        decreases ch@.len() - j,
    {
        r.push(child_val_exec(vals, ch[j]));
        j = j + 1;
    }
    proof {
        assert(r@ =~= gather(vals@, ch@));
    }
    r
}

/// Row estimate of every node of an expression, in node order.
pub fn eval_rows(expr: &RecExpr, stat: &Statistics) -> (r: Vec<u64>)
    ensures
        r@ == expr_rows(expr@, stat.table_rows@),
{
    let n = expr.len();
    let mut rows: Vec<u64> = Vec::new();
    let mut i: usize = 0;
    while i < n
        invariant
            n == expr@.len(),
            i <= n,
            rows@ == rows_seq(expr@, stat.table_rows@, i as int),
            rows@.len() == i,
        decreases n - i,
    {
        let node = expr.node(i);
        let cr = gather_exec(&rows, &node.children);
        let v = rows_of_exec(node.op, &cr, stat);
        proof {
            assert(expr@[i as int].0 == node.op);
            assert(expr@[i as int].1 == node.children@);
        }
        rows.push(v);
        i = i + 1;
    }
    rows
}

/// Accumulated cost of every node of an expression, in node order; each
/// entry is the node's base cost plus the accumulated costs of its
/// children.
pub fn eval_costs(expr: &RecExpr, stat: &Statistics) -> (r: Vec<u64>)
    ensures
        r@ == expr_costs(expr@, stat.table_rows@),
{
    let n = expr.len();
    let mut rows: Vec<u64> = Vec::new();
    let mut costs: Vec<u64> = Vec::new();
    let mut i: usize = 0;
    while i < n
        invariant
            n == expr@.len(),
            i <= n,
            rows@ == rows_seq(expr@, stat.table_rows@, i as int),
            costs@ == cost_seq(expr@, stat.table_rows@, i as int),
            rows@.len() == i,
            costs@.len() == i,
        decreases n - i,
    {
        let node = expr.node(i);
        let cr = gather_exec(&rows, &node.children);
        let cc = gather_exec(&costs, &node.children);
        let b = base_cost_exec(node.op, &cr);
        let total = add_sat(b, sum_sat(&cc));
        let v = rows_of_exec(node.op, &cr, stat);
        proof {
            assert(expr@[i as int].0 == node.op);
            assert(expr@[i as int].1 == node.children@);
        }
        rows.push(v);
        costs.push(total);
        i = i + 1;
    }
    costs
}

/// Total cost of an expression: the accumulated cost at its root.
pub fn tree_cost(expr: &RecExpr, stat: &Statistics) -> (r: u64)
    requires
        expr@.len() > 0,
    ensures
        r == expr_cost(expr@, stat.table_rows@),
{
    let costs = eval_costs(expr, stat);
    proof {
        lemma_eval_len(expr@, stat.table_rows@, expr@.len() as int);
    }
    costs[costs.len() - 1]
}

} // verus!
