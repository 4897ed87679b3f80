//! Cost-based, rule-driven plan optimizer for a relational query engine.
//!
//! The crate rewrites a relational-algebra expression through successive
//! equality-saturation stages into a lower-estimated-cost equivalent plan.
//! It contains the e-graph engine (hash-consing, union-find, congruence
//! repair), the bounded saturation runner, the cost-based extractor, and the
//! three-stage pipeline that sequences rule sets.

pub mod analysis;
pub mod cost;
pub mod egraph;
pub mod expr;
pub mod extract;
pub mod optimizer;
pub mod recexpr;
pub mod rules;
pub mod runner;
pub mod union_find;

pub use expr::{ENode, Id, Op};
pub use analysis::{Catalog, Config, ExprAnalysis, Statistics};
pub use optimizer::{NoopObserver, Observer, Optimizer, StageRecord};
pub use recexpr::{PlanError, RecExpr};
