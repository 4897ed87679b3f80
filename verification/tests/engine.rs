//! Tests of the e-graph engine: hash-consing, unions, congruence repair,
//! and cycle-safe extraction.

use planopt::analysis::{Catalog, Config, ExprAnalysis, Statistics};
use planopt::egraph::EGraph;
use planopt::expr::{ENode, Op};
use planopt::extract::{class_costs, extract_best, UNREACHABLE};
use planopt::recexpr::{PlanError, RecExpr};
use planopt::rules::stage1_rules;
use planopt::runner::{run_rules, StopReason, DEFAULT_NODE_LIMIT};

fn plain_analysis() -> ExprAnalysis {
    ExprAnalysis {
        catalog: Catalog::new(),
        config: Config::default(),
        stat: Statistics::new(),
    }
}

/// Inserting the same node shape twice into a fresh e-graph returns the
/// same id both times.
#[test]
fn hash_consing_same_id() {
    let anal = plain_analysis();
    let mut g = EGraph::new();
    let id1 = g.add_node(&anal, ENode::leaf(Op::Constant(42)));
    let id2 = g.add_node(&anal, ENode::leaf(Op::Constant(42)));
    assert_eq!(id1, id2);
    assert_eq!(g.len(), 1);

    // The same holds for a composite shape.
    let n1 = g.add_node(&anal, ENode::mk(Op::Not, vec![id1]));
    let n2 = g.add_node(&anal, ENode::mk(Op::Not, vec![id1]));
    assert_eq!(n1, n2);
    assert_eq!(g.len(), 2);

    // A different shape gets a different slot.
    let other = g.add_node(&anal, ENode::leaf(Op::Constant(43)));
    assert_ne!(other, id1);
}

/// A union merges two classes; repeating it is a no-op.
#[test]
fn union_merges_once() {
    let anal = plain_analysis();
    let mut g = EGraph::new();
    let a = g.add_node(&anal, ENode::leaf(Op::Constant(1)));
    let b = g.add_node(&anal, ENode::leaf(Op::Constant(2)));
    assert_ne!(g.find(a), g.find(b));
    assert_eq!(g.merge_count(), 0);
    assert!(g.unite(a, b));
    assert_eq!(g.find(a), g.find(b));
    assert_eq!(g.merge_count(), 1);
    assert!(!g.unite(a, b));
    assert_eq!(g.merge_count(), 1);
    assert_eq!(g.number_of_classes(), 1);
}

/// Congruence: after the leaves are united and the graph rebuilt, the
/// parents with equal shapes fall into one class.
#[test]
fn rebuild_restores_congruence() {
    let anal = plain_analysis();
    let mut g = EGraph::new();
    let a = g.add_node(&anal, ENode::leaf(Op::Column(1)));
    let b = g.add_node(&anal, ENode::leaf(Op::Column(2)));
    let fa = g.add_node(&anal, ENode::mk(Op::Not, vec![a]));
    let fb = g.add_node(&anal, ENode::mk(Op::Not, vec![b]));
    assert_ne!(g.find(fa), g.find(fb));
    g.unite(a, b);
    assert_ne!(g.find(fa), g.find(fb));
    g.rebuild();
    assert_eq!(g.find(fa), g.find(fb));
}

/// The analysis lattice merges by minimum on union.
#[test]
fn union_merges_rows_by_minimum() {
    let mut stat = Statistics::new();
    stat.set_rows(1, 100);
    stat.set_rows(2, 30);
    let anal = ExprAnalysis {
        catalog: Catalog::new(),
        config: Config::default(),
        stat,
    };
    let mut g = EGraph::new();
    let t1 = g.add_node(&anal, ENode::leaf(Op::Table(1)));
    let t2 = g.add_node(&anal, ENode::leaf(Op::Table(2)));
    assert_eq!(g.classes[t1].rows, 100);
    assert_eq!(g.classes[t2].rows, 30);
    g.unite(t1, t2);
    let root = g.find(t1);
    assert_eq!(g.classes[root].rows, 30);
}

/// Extraction picks the cheapest member of the root class.
#[test]
fn extraction_picks_cheaper_alternative() {
    let anal = plain_analysis();
    let mut g = EGraph::new();
    let nodes = vec![
        ENode::leaf(Op::Constant(1)),
        ENode::mk(Op::Not, vec![0]),
        ENode::mk(Op::Not, vec![1]),
    ];
    let expr = RecExpr::build(nodes).unwrap();
    let root = g.add_expr(&anal, &expr);
    let (cost_before, best_before) = extract_best(&g, root).unwrap();
    assert_eq!(cost_before, 3);
    assert_eq!(best_before.len(), 3);
    // Claim Not(Not(1)) is equivalent to 1; extraction now returns the
    // constant alone.
    let c = g.add_node(&anal, ENode::leaf(Op::Constant(1)));
    g.unite(root, c);
    g.rebuild();
    let (cost_after, best_after) = extract_best(&g, root).unwrap();
    assert_eq!(cost_after, 1);
    assert_eq!(best_after.len(), 1);
    assert_eq!(best_after.node(0).op, Op::Constant(1));
}

/// A class that depends only on itself keeps the unreachable cost, and
/// extraction reports the violation instead of looping.
#[test]
fn cyclic_class_is_unreachable() {
    let anal = plain_analysis();
    let mut g = EGraph::new();
    let c = g.add_node(&anal, ENode::leaf(Op::Constant(1)));
    let r = g.add_node(&anal, ENode::mk(Op::Ref, vec![c]));
    // Synthetic cycle: the class of `r` now holds only a node whose one
    // child is the class itself.
    g.classes[r].nodes.clear();
    g.classes[r].nodes.push(ENode::mk(Op::Ref, vec![r]));
    let costs = class_costs(&g);
    assert_eq!(costs[r], UNREACHABLE);
    assert_ne!(costs[c], UNREACHABLE);
    assert!(matches!(extract_best(&g, r), Err(PlanError::NoBestPlan)));
    // The constant's class is still extractable.
    let (cost, expr) = extract_best(&g, c).unwrap();
    assert_eq!(cost, 1);
    assert_eq!(expr.len(), 1);
}

/// Rewriting is sound: after saturation, a nested filter and its merged
/// form sit in the same equivalence class.
#[test]
fn filter_merge_lands_in_same_class() {
    let mut stat = Statistics::new();
    stat.set_rows(7, 1000);
    let anal = ExprAnalysis {
        catalog: Catalog::new(),
        config: Config::default(),
        stat,
    };
    let mut g = EGraph::new();
    // Filter(p2, Filter(p1, Scan(T)))
    let nested = RecExpr::build(vec![
        ENode::leaf(Op::Table(7)),
        ENode::mk(Op::Scan, vec![0]),
        ENode::leaf(Op::Column(1)),
        ENode::leaf(Op::Column(2)),
        ENode::mk(Op::Filter, vec![2, 1]),
        ENode::mk(Op::Filter, vec![3, 4]),
    ])
    .unwrap();
    // Filter(And(p1, p2), Scan(T))
    let merged = RecExpr::build(vec![
        ENode::leaf(Op::Table(7)),
        ENode::mk(Op::Scan, vec![0]),
        ENode::leaf(Op::Column(1)),
        ENode::leaf(Op::Column(2)),
        ENode::mk(Op::And, vec![2, 3]),
        ENode::mk(Op::Filter, vec![4, 1]),
    ])
    .unwrap();
    let root_nested = g.add_expr(&anal, &nested);
    let root_merged = g.add_expr(&anal, &merged);
    assert_ne!(g.find(root_nested), g.find(root_merged));
    let rules = stage1_rules();
    run_rules(&mut g, &anal, &rules, 6, DEFAULT_NODE_LIMIT);
    assert_eq!(g.find(root_nested), g.find(root_merged));
}

/// Idempotence: re-running saturation on an already-saturated graph
/// produces zero additional unions.
#[test]
fn saturation_is_idempotent() {
    let mut stat = Statistics::new();
    stat.set_rows(7, 1000);
    let anal = ExprAnalysis {
        catalog: Catalog::new(),
        config: Config::default(),
        stat,
    };
    let mut g = EGraph::new();
    let expr = RecExpr::build(vec![
        ENode::leaf(Op::Table(7)),
        ENode::mk(Op::Scan, vec![0]),
        ENode::leaf(Op::Column(1)),
        ENode::leaf(Op::Column(2)),
        ENode::mk(Op::Filter, vec![2, 1]),
        ENode::mk(Op::Filter, vec![3, 4]),
    ])
    .unwrap();
    g.add_expr(&anal, &expr);
    let rules = stage1_rules();
    let (reason, _) = run_rules(&mut g, &anal, &rules, 64, DEFAULT_NODE_LIMIT);
    assert_eq!(reason, StopReason::Saturated);
    let merges_after_first = g.merge_count();
    let nodes_after_first = g.len();
    let (reason2, _) = run_rules(&mut g, &anal, &rules, 64, DEFAULT_NODE_LIMIT);
    assert_eq!(reason2, StopReason::Saturated);
    assert_eq!(g.merge_count(), merges_after_first);
    assert_eq!(g.len(), nodes_after_first);
}

/// The node-count safety bound cuts saturation off gracefully.
#[test]
fn node_limit_cuts_off() {
    let mut stat = Statistics::new();
    stat.set_rows(7, 1000);
    let anal = ExprAnalysis {
        catalog: Catalog::new(),
        config: Config::default(),
        stat,
    };
    let mut g = EGraph::new();
    let expr = RecExpr::build(vec![
        ENode::leaf(Op::Table(7)),
        ENode::mk(Op::Scan, vec![0]),
        ENode::leaf(Op::Column(1)),
        ENode::leaf(Op::Column(2)),
        ENode::mk(Op::Filter, vec![2, 1]),
        ENode::mk(Op::Filter, vec![3, 4]),
    ])
    .unwrap();
    let root = g.add_expr(&anal, &expr);
    let rules = stage1_rules();
    let (reason, _) = run_rules(&mut g, &anal, &rules, 64, 6);
    assert_eq!(reason, StopReason::NodeLimit);
    // The partial graph still extracts.
    assert!(extract_best(&g, root).is_ok());
}

/// A shared subtree is inserted once: hash-consing across `add_expr`.
#[test]
fn add_expr_shares_duplicate_shapes() {
    let anal = plain_analysis();
    let mut g = EGraph::new();
    let expr = RecExpr::build(vec![
        ENode::leaf(Op::Column(0)),
        ENode::leaf(Op::Column(0)),
        ENode::mk(Op::Add, vec![0, 1]),
    ])
    .unwrap();
    g.add_expr(&anal, &expr);
    assert_eq!(g.len(), 2);
}

/// Class statistics report the class count and member-count bounds.
#[test]
fn class_stats_reports_bounds() {
    let anal = plain_analysis();
    let mut g = EGraph::new();
    let a = g.add_node(&anal, ENode::leaf(Op::Constant(1)));
    let b = g.add_node(&anal, ENode::leaf(Op::Constant(2)));
    g.add_node(&anal, ENode::leaf(Op::Constant(3)));
    g.unite(a, b);
    let (mn, mx, classes) = g.class_stats();
    assert_eq!(classes, 2);
    assert_eq!(mn, 1);
    assert_eq!(mx, 2);
}
