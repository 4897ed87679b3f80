//! Tests of the staged pipeline, the cost model, validation, and the
//! observer hook.

use planopt::analysis::{Catalog, Config, Statistics, DEFAULT_TABLE_ROWS, ROWS_CAP};
use planopt::expr::{ENode, Op};
use planopt::optimizer::{Observer, Optimizer, StageRecord};
use planopt::recexpr::{PlanError, RecExpr};

/// `Filter(Equal(Column(0), Constant(5)), Scan(Table(7)))`.
fn filtered_scan() -> RecExpr {
    RecExpr::build(vec![
        ENode::leaf(Op::Table(7)),
        ENode::mk(Op::Scan, vec![0]),
        ENode::leaf(Op::Column(0)),
        ENode::leaf(Op::Constant(5)),
        ENode::mk(Op::Equal, vec![2, 3]),
        ENode::mk(Op::Filter, vec![4, 1]),
    ])
    .unwrap()
}

fn indexed_setup() -> Optimizer {
    let mut stat = Statistics::new();
    stat.set_rows(7, 1000);
    let mut catalog = Catalog::new();
    catalog.add_index(7, 0);
    let config = Config {
        enable_range_filter_scan: true,
        table_is_sorted_by_primary_key: false,
    };
    Optimizer::new(catalog, stat, config)
}

fn same_expr(a: &RecExpr, b: &RecExpr) -> bool {
    if a.len() != b.len() {
        return false;
    }
    let mut i = 0;
    while i < a.len() {
        if !a.node(i).eq_shape(b.node(i)) {
            return false;
        }
        i += 1;
    }
    true
}

/// Validation accepts exactly the well-formed sequences, naming the first
/// violation.
#[test]
fn build_validates_input() {
    assert!(matches!(RecExpr::build(vec![]), Err(PlanError::EmptyExpr)));
    assert!(matches!(
        RecExpr::build(vec![ENode::mk(Op::Not, vec![0])]),
        Err(PlanError::ForwardChild)
    ));
    assert!(matches!(
        RecExpr::build(vec![
            ENode::leaf(Op::Constant(1)),
            ENode::mk(Op::Not, vec![0, 0]),
        ]),
        Err(PlanError::WrongArity)
    ));
    assert!(RecExpr::build(vec![ENode::leaf(Op::Constant(1))]).is_ok());
}

/// Exact per-node costs and row estimates for a scan.
#[test]
fn costs_and_rows_of_scan() {
    let mut stat = Statistics::new();
    stat.set_rows(7, 100);
    let opt = Optimizer::new(Catalog::new(), stat, Config::default());
    let expr = RecExpr::build(vec![
        ENode::leaf(Op::Table(7)),
        ENode::mk(Op::Scan, vec![0]),
    ])
    .unwrap();
    assert_eq!(opt.rows(&expr), vec![100, 100]);
    // Table: base 1. Scan: base 1 + 100 rows, plus the table's cost.
    assert_eq!(opt.costs(&expr), vec![1, 102]);
}

/// Exact costs and rows through a filter: the estimate halves.
#[test]
fn filter_halves_rows() {
    let mut stat = Statistics::new();
    stat.set_rows(7, 1000);
    let opt = Optimizer::new(Catalog::new(), stat, Config::default());
    let expr = filtered_scan();
    let rows = opt.rows(&expr);
    assert_eq!(rows, vec![1000, 1000, 1, 1, 1, 500]);
    let costs = opt.costs(&expr);
    // Table 1; Scan 1+1000+1; Column 1; Constant 1; Equal 1+1+1;
    // Filter (1+1000) + 3 + 1002.
    assert_eq!(costs, vec![1, 1002, 1, 1, 3, 2006]);
}

/// Degenerate statistics are clamped, not propagated.
#[test]
fn degenerate_estimates_are_clamped() {
    let mut stat = Statistics::new();
    stat.set_rows(1, 0);
    stat.set_rows(2, u64::MAX);
    let opt = Optimizer::new(Catalog::new(), stat, Config::default());
    let zero = RecExpr::build(vec![ENode::leaf(Op::Table(1))]).unwrap();
    assert_eq!(opt.rows(&zero), vec![1]);
    let huge = RecExpr::build(vec![ENode::leaf(Op::Table(2))]).unwrap();
    assert_eq!(opt.rows(&huge), vec![ROWS_CAP]);
    // An unlisted table reports the documented default.
    let unknown = RecExpr::build(vec![ENode::leaf(Op::Table(99))]).unwrap();
    assert_eq!(opt.rows(&unknown), vec![DEFAULT_TABLE_ROWS]);
}

/// Exactly the plan operators are counted, scalar ones ignored.
#[test]
fn plan_operator_count() {
    let expr = filtered_scan();
    // Scan and Filter are plan operators; Table, Column, Constant and
    // Equal are not.
    assert_eq!(expr.count_plan_ops(), 2);
    let scalar = RecExpr::build(vec![
        ENode::leaf(Op::Constant(1)),
        ENode::leaf(Op::Constant(2)),
        ENode::mk(Op::Add, vec![0, 1]),
    ])
    .unwrap();
    assert_eq!(scalar.count_plan_ops(), 0);
}

/// When a table is listed twice, the first entry wins.
#[test]
fn statistics_first_entry_wins() {
    let mut stat = Statistics::new();
    stat.set_rows(1, 100);
    stat.set_rows(1, 5);
    let opt = Optimizer::new(Catalog::new(), stat, Config::default());
    let expr = RecExpr::build(vec![ENode::leaf(Op::Table(1))]).unwrap();
    assert_eq!(opt.rows(&expr), vec![100]);
}

/// The default configuration disables both optional rule sets.
#[test]
fn config_default_is_disabled() {
    let config = Config::default();
    assert!(!config.enable_range_filter_scan);
    assert!(!config.table_is_sorted_by_primary_key);
}

/// The catalog accessor returns the handle the optimizer was built with.
#[test]
fn catalog_accessor_roundtrip() {
    let mut catalog = Catalog::new();
    catalog.add_index(3, 1);
    let opt = Optimizer::new(catalog, Statistics::new(), Config::default());
    assert!(opt.catalog().has_index(3, 1));
    assert!(!opt.catalog().has_index(3, 2));
}

/// End-to-end: with an index on column 0 and the rewrite enabled, the
/// optimized plan contains an `IndexScan` and costs strictly less than
/// the filtered scan.
#[test]
fn filtered_scan_becomes_index_scan() {
    let opt = indexed_setup();
    let input = filtered_scan();
    let input_cost = *opt.costs(&input).last().unwrap();
    let best = opt.optimize(filtered_scan());
    let mut has_index_scan = false;
    let mut i = 0;
    while i < best.len() {
        if best.node(i).op == Op::IndexScan {
            has_index_scan = true;
        }
        i += 1;
    }
    assert!(has_index_scan);
    let best_cost = *opt.costs(&best).last().unwrap();
    assert!(best_cost < input_cost);
}

/// Without the configuration flag, no index scan appears.
#[test]
fn index_scan_needs_config_flag() {
    let mut stat = Statistics::new();
    stat.set_rows(7, 1000);
    let mut catalog = Catalog::new();
    catalog.add_index(7, 0);
    let opt = Optimizer::new(catalog, stat, Config::default());
    let best = opt.optimize(filtered_scan());
    let mut i = 0;
    while i < best.len() {
        assert_ne!(best.node(i).op, Op::IndexScan);
        i += 1;
    }
}

/// Without a matching index in the catalog, no index scan appears.
#[test]
fn index_scan_needs_catalog_index() {
    let mut stat = Statistics::new();
    stat.set_rows(7, 1000);
    let mut catalog = Catalog::new();
    catalog.add_index(7, 3);
    let config = Config {
        enable_range_filter_scan: true,
        table_is_sorted_by_primary_key: false,
    };
    let opt = Optimizer::new(catalog, stat, config);
    let best = opt.optimize(filtered_scan());
    let mut i = 0;
    while i < best.len() {
        assert_ne!(best.node(i).op, Op::IndexScan);
        i += 1;
    }
}

/// Cost monotonic improvement: the optimized cost never exceeds the
/// input's under the same cost function.
#[test]
fn optimize_never_raises_cost() {
    let opt = indexed_setup();
    let input = filtered_scan();
    let input_cost = *opt.costs(&input).last().unwrap();
    let best = opt.optimize(filtered_scan());
    let best_cost = *opt.costs(&best).last().unwrap();
    assert!(best_cost <= input_cost);
}

/// Determinism: two runs with identical input, rules and limits yield
/// bit-identical expressions and costs.
#[test]
fn optimize_is_deterministic() {
    let opt1 = indexed_setup();
    let opt2 = indexed_setup();
    let best1 = opt1.optimize(filtered_scan());
    let best2 = opt2.optimize(filtered_scan());
    assert!(same_expr(&best1, &best2));
    assert_eq!(opt1.costs(&best1), opt2.costs(&best2));
}

struct Recorder {
    records: Vec<StageRecord>,
}

impl Observer for Recorder {
    fn on_round(&mut self, rec: &StageRecord) {
        self.records.push(*rec);
    }
}

/// The observer receives one record per round — 2 + 4 + 3 across the
/// stages — and the per-round best cost never increases.
#[test]
fn observer_sees_every_round() {
    let opt = indexed_setup();
    let mut rec = Recorder { records: Vec::new() };
    let input_cost = *opt.costs(&filtered_scan()).last().unwrap();
    opt.optimize_with(filtered_scan(), &mut rec);
    assert_eq!(rec.records.len(), 9);
    assert_eq!(rec.records[0].stage, 1);
    assert_eq!(rec.records[2].stage, 2);
    assert_eq!(rec.records[6].stage, 3);
    let mut prev = input_cost;
    for r in &rec.records {
        assert!(r.best_cost <= prev);
        prev = r.best_cost;
    }
}

/// Hash joins appear for equality joins once stage 3 runs.
#[test]
fn join_gets_hash_join_alternative() {
    let mut stat = Statistics::new();
    stat.set_rows(1, 500);
    stat.set_rows(2, 400);
    let opt = Optimizer::new(Catalog::new(), stat, Config::default());
    // Join(Equal(Column(0), Column(1)), Scan(Table(1)), Scan(Table(2)))
    let input = RecExpr::build(vec![
        ENode::leaf(Op::Table(1)),
        ENode::mk(Op::Scan, vec![0]),
        ENode::leaf(Op::Table(2)),
        ENode::mk(Op::Scan, vec![2]),
        ENode::leaf(Op::Column(0)),
        ENode::leaf(Op::Column(1)),
        ENode::mk(Op::Equal, vec![4, 5]),
        ENode::mk(Op::Join, vec![6, 1, 3]),
    ])
    .unwrap();
    let input_cost = *opt.costs(&input).last().unwrap();
    let best = opt.optimize(input);
    let mut has_hash_join = false;
    let mut i = 0;
    while i < best.len() {
        if best.node(i).op == Op::HashJoin {
            has_hash_join = true;
        }
        i += 1;
    }
    assert!(has_hash_join);
    assert!(*opt.costs(&best).last().unwrap() < input_cost);
}

/// With trusted base order, a sort over it is dropped.
#[test]
fn order_elided_when_sorted() {
    let mut stat = Statistics::new();
    stat.set_rows(7, 1000);
    let config = Config {
        enable_range_filter_scan: false,
        table_is_sorted_by_primary_key: true,
    };
    let opt = Optimizer::new(Catalog::new(), stat, config);
    let input = RecExpr::build(vec![
        ENode::leaf(Op::Table(7)),
        ENode::mk(Op::Scan, vec![0]),
        ENode::mk(Op::List, vec![]),
        ENode::mk(Op::Order, vec![2, 1]),
    ])
    .unwrap();
    let best = opt.optimize(input);
    let mut i = 0;
    while i < best.len() {
        assert_ne!(best.node(i).op, Op::Order);
        i += 1;
    }
}
