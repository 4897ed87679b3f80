//! The staged optimization pipeline.
//!
//! Three sequential stages, each a tuple of rule set, outer-round count,
//! and inner iteration limit. Each outer round builds a fresh e-graph from
//! the current best expression, saturates it with the stage's rules,
//! extracts a candidate, and keeps it only when its re-evaluated cost does
//! not exceed the current best's — greedy hill-climbing that bounds graph
//! growth and makes the per-stage cost monotonically non-increasing.
//! After each round a structured record may be handed to an injected
//! observer; the optimization result never depends on the observer.

use vstd::prelude::*;

use crate::analysis::{Catalog, Config, ExprAnalysis, Statistics};
use crate::cost::{eval_costs, eval_rows, expr_cost, expr_costs, expr_rows, tree_cost};
use crate::egraph::{equiv_preserved, expr_consed, EGraph};
use crate::expr::{Id, NodeV};
use crate::extract::{cost_fixpoint, extract_best, represents, UNREACHABLE};
use crate::recexpr::{nodes_wf, RecExpr};
use crate::rules::{rules_saturated, stage1_rules, stage2_rules, stage3_rules, Rule};
use crate::runner::{run_rules, StopReason, DEFAULT_NODE_LIMIT};

verus! {

/// Evidence of one greedy round. `seed` is the expression the round
/// started from and `out` what it ended with; `gs` is the fresh e-graph
/// holding the seed at root class `root`, `gf` the graph after
/// saturation, and `sat` whether the runner reported a true fixpoint. The
/// round's output is forced: when the root's class has a reachable
/// fixpoint cost, a representable candidate was extracted and kept
/// exactly when its re-evaluated cost does not exceed the seed's;
/// otherwise the seed is kept.
pub open spec fn round_evidence(
    cat: Seq<(u64, u64)>,
    rules: Seq<Rule>,
    stat: Seq<(u64, u64)>,
    seed: Seq<NodeV>,
    out: Seq<NodeV>,
    gs: EGraph,
    gf: EGraph,
    root: Id,
    sat: bool,
) -> bool {
    &&& gs.wf()
    &&& gf.wf()
    &&& exists|ids: Seq<Id>| expr_consed(gs, seed, ids, root)
    &&& gf.n_slots() >= gs.n_slots()
    &&& (root as nat) < gf.n_slots()
    &&& equiv_preserved(gs, gf)
    &&& (sat ==> rules_saturated(gf, cat, rules))
    &&& forall|cv: Seq<u64>|
        #[trigger] cost_fixpoint(gf, cv) ==> if cv[gf.uf@[root as int] as int] < UNREACHABLE {
            exists|cand: Seq<NodeV>|
                #![auto]
                {
                    &&& nodes_wf(cand)
                    &&& represents(gf, cand, cand.len() - 1, gf.uf@[root as int])
                    &&& out == (if expr_cost(cand, stat) <= expr_cost(seed, stat) {
                        cand
                    } else {
                        seed
                    })
                }
        } else {
            out == seed
        }
}

/// Evidence of one stage: one round of evidence per outer round, chained
/// so that the first round is seeded from the stage's input, every later
/// round from the previous round's best, and the stage's output is the
/// last round's best. An evidence entry is
/// `(seed, out, gs, gf, root, sat)`.
pub open spec fn stage_ok(
    cat: Seq<(u64, u64)>,
    stat: Seq<(u64, u64)>,
    rules: Seq<Rule>,
    rounds: int,
    seed: Seq<NodeV>,
    out: Seq<NodeV>,
    ev: Seq<(Seq<NodeV>, Seq<NodeV>, EGraph, EGraph, Id, bool)>,
) -> bool {
    &&& ev.len() == rounds
    &&& (rounds == 0 ==> out == seed)
    &&& (rounds > 0 ==> ev[0].0 == seed && out == ev[rounds - 1].1)
    &&& forall|i: int| 0 < i < rounds ==> (#[trigger] ev[i]).0 == ev[i - 1].1
    &&& forall|i: int|
        0 <= i < rounds ==> round_evidence(
            cat,
            rules,
            stat,
            (#[trigger] ev[i]).0,
            ev[i].1,
            ev[i].2,
            ev[i].3,
            ev[i].4,
            ev[i].5,
        )
}

/// One per-round telemetry record.
#[derive(Clone, Copy, PartialEq, Eq, Structural, Debug)]
pub struct StageRecord {
    /// Stage number, starting at 1.
    pub stage: u32,
    /// Round within the stage, starting at 0.
    pub round: usize,
    /// Cost of the best expression after this round, re-evaluated under
    /// the diagnostic cost function.
    pub best_cost: u64,
    /// Number of equivalence classes in the round's e-graph.
    pub class_count: usize,
    /// Size of the round's hash-cons table.
    pub node_count: usize,
    /// Smallest member count over the classes.
    pub min_class_nodes: usize,
    /// Largest member count over the classes.
    pub max_class_nodes: usize,
    /// Plan operators (scans, filters, joins) in the round's best
    /// expression.
    pub plan_ops: usize,
    /// The graph's union counter at the end of the round.
    pub merge_count: u64,
    /// Matches applied during the round's saturation.
    pub applied_matches: u64,
}

/// An optional sink for per-round records. The engine's result never
/// depends on an observer's behaviour: it only receives records.
pub trait Observer {
    /// Receive one record. Failures must stay inside the observer.
    fn on_round(&mut self, rec: &StageRecord);
}

/// The do-nothing sink.
pub struct NoopObserver;

impl Observer for NoopObserver {
    fn on_round(&mut self, rec: &StageRecord) {
    }
}

/// Plan optimizer: the catalog and statistics handles plus the immutable
/// configuration, shared by every optimization request.
#[derive(Debug)]
pub struct Optimizer {
    pub analysis: ExprAnalysis,
}

impl Optimizer {
    /// Build an optimizer from the external catalog, statistics and
    /// configuration.
    pub fn new(catalog: Catalog, stat: Statistics, config: Config) -> (r: Optimizer)
        ensures
            r.analysis.catalog == catalog,
            r.analysis.stat == stat,
            r.analysis.config == config,
    {
        Optimizer { analysis: ExprAnalysis { catalog, config, stat } }
    }

    /// The catalog handle.
    pub fn catalog(&self) -> (r: &Catalog)
        ensures
            *r == self.analysis.catalog,
    {
        &self.analysis.catalog
    }

    /// The accumulated cost of each node of the expression, in node
    /// order: a node's entry is its base cost plus its children's entries.
    pub fn costs(&self, expr: &RecExpr) -> (r: Vec<u64>)
        ensures
            r@ == expr_costs(expr@, self.analysis.stat.table_rows@),
    {
        eval_costs(expr, &self.analysis.stat)
    }

    /// The estimated row count of each node of the expression, in node
    /// order.
    pub fn rows(&self, expr: &RecExpr) -> (r: Vec<u64>)
        ensures
            r@ == expr_rows(expr@, self.analysis.stat.table_rows@),
    {
        eval_rows(expr, &self.analysis.stat)
    }

    /// Optimize an expression through the three stages. The result is
    /// well-formed, its cost under the same cost function never exceeds
    /// the input's, and the run is evidenced: three stages with the
    /// documented rule sets and round counts, each round seeded from the
    /// previous best, saturated, extracted and kept only on cost
    /// improvement ([`stage_ok`]).
    pub fn optimize(&self, expr: RecExpr) -> (r: RecExpr)
        requires
            expr.wf(),
        ensures
            r.wf(),
            expr_cost(r@, self.analysis.stat.table_rows@) <= expr_cost(
                expr@,
                self.analysis.stat.table_rows@,
            ),
            exists|
                b1: Seq<NodeV>,
                b2: Seq<NodeV>,
                ev1: Seq<(Seq<NodeV>, Seq<NodeV>, EGraph, EGraph, Id, bool)>,
                ev2: Seq<(Seq<NodeV>, Seq<NodeV>, EGraph, EGraph, Id, bool)>,
                ev3: Seq<(Seq<NodeV>, Seq<NodeV>, EGraph, EGraph, Id, bool)>,
            |
                #![auto]
                {
                    &&& stage_ok(
                        self.analysis.catalog.indexes@,
                        self.analysis.stat.table_rows@,
                        crate::rules::spec_stage1_rules(),
                        2,
                        expr@,
                        b1,
                        ev1,
                    )
                    &&& stage_ok(
                        self.analysis.catalog.indexes@,
                        self.analysis.stat.table_rows@,
                        crate::rules::spec_stage2_rules(self.analysis.config),
                        4,
                        b1,
                        b2,
                        ev2,
                    )
                    &&& stage_ok(
                        self.analysis.catalog.indexes@,
                        self.analysis.stat.table_rows@,
                        crate::rules::spec_stage3_rules(self.analysis.config),
                        3,
                        b2,
                        r@,
                        ev3,
                    )
                },
    {
        let mut sink = NoopObserver;
        self.optimize_with(expr, &mut sink)
    }

    /// Optimize an expression, handing one record per round to the
    /// observer. Stage 1 decorrelates nested predicates over two rounds,
    /// stage 2 pushes work toward the scans and considers index access
    /// over four rounds, stage 3 picks join order and algorithms over
    /// three rounds; the stages' rule sets and round counts, the chaining
    /// of every round from the previous best, and each round's
    /// saturate-extract-compare step are stated by [`stage_ok`].
    pub fn optimize_with<O: Observer>(&self, expr: RecExpr, obs: &mut O) -> (r: RecExpr)
        requires
            expr.wf(),
        ensures
            r.wf(),
            expr_cost(r@, self.analysis.stat.table_rows@) <= expr_cost(
                expr@,
                self.analysis.stat.table_rows@,
            ),
            exists|
                b1: Seq<NodeV>,
                b2: Seq<NodeV>,
                ev1: Seq<(Seq<NodeV>, Seq<NodeV>, EGraph, EGraph, Id, bool)>,
                ev2: Seq<(Seq<NodeV>, Seq<NodeV>, EGraph, EGraph, Id, bool)>,
                ev3: Seq<(Seq<NodeV>, Seq<NodeV>, EGraph, EGraph, Id, bool)>,
            |
                #![auto]
                {
                    &&& stage_ok(
                        self.analysis.catalog.indexes@,
                        self.analysis.stat.table_rows@,
                        crate::rules::spec_stage1_rules(),
                        2,
                        expr@,
                        b1,
                        ev1,
                    )
                    &&& stage_ok(
                        self.analysis.catalog.indexes@,
                        self.analysis.stat.table_rows@,
                        crate::rules::spec_stage2_rules(self.analysis.config),
                        4,
                        b1,
                        b2,
                        ev2,
                    )
                    &&& stage_ok(
                        self.analysis.catalog.indexes@,
                        self.analysis.stat.table_rows@,
                        crate::rules::spec_stage3_rules(self.analysis.config),
                        3,
                        b2,
                        r@,
                        ev3,
                    )
                },
    {
        let ghost e0 = expr@;
        let ghost cat = self.analysis.catalog.indexes@;
        let ghost stat = self.analysis.stat.table_rows@;
        let config = &self.analysis.config;
        let rules1 = stage1_rules();
        let stage1 = self.optimize_stage(expr, &rules1, 2, 6, 1, obs);
        let best1 = stage1.0;
        let rules2 = stage2_rules(config);
        let stage2 = self.optimize_stage(best1, &rules2, 4, 6, 2, obs);
        let best2 = stage2.0;
        let rules3 = stage3_rules(config);
        let stage3 = self.optimize_stage(best2, &rules3, 3, 8, 3, obs);
        proof {
            assert(rules1@ == crate::rules::spec_stage1_rules());
            assert(rules2@ == crate::rules::spec_stage2_rules(self.analysis.config));
            assert(rules3@ == crate::rules::spec_stage3_rules(self.analysis.config));
            assert(stage_ok(
                cat,
                stat,
                crate::rules::spec_stage1_rules(),
                2,
                e0,
                stage1.0@,
                stage1.1@,
            ));
            assert(stage_ok(
                cat,
                stat,
                crate::rules::spec_stage2_rules(self.analysis.config),
                4,
                stage1.0@,
                stage2.0@,
                stage2.1@,
            ));
            assert(stage_ok(
                cat,
                stat,
                crate::rules::spec_stage3_rules(self.analysis.config),
                3,
                stage2.0@,
                stage3.0@,
                stage3.1@,
            ));
        }
        stage3.0
    }

    /// One stage: `rounds` greedy rounds of saturate-and-extract with the
    /// given rules, each seeded from the current best. A candidate
    /// replaces the best expression only when its re-evaluated cost does
    /// not exceed the best's, so the stage's output never costs more than
    /// its input; the ghost evidence records each round's graphs and
    /// outcome and chains them ([`stage_ok`]).
    fn optimize_stage<O: Observer>(
        &self,
        expr: RecExpr,
        rules: &Vec<Rule>,
        rounds: usize,
        iter_limit: usize,
        stage: u32,
        obs: &mut O,
    ) -> (r: (RecExpr, Ghost<Seq<(Seq<NodeV>, Seq<NodeV>, EGraph, EGraph, Id, bool)>>))
        requires
            expr.wf(),
        ensures
            r.0.wf(),
            expr_cost(r.0@, self.analysis.stat.table_rows@) <= expr_cost(
                expr@,
                self.analysis.stat.table_rows@,
            ),
            stage_ok(
                self.analysis.catalog.indexes@,
                self.analysis.stat.table_rows@,
                rules@,
                rounds as int,
                expr@,
                r.0@,
                r.1@,
            ),
    {
        let ghost e0 = expr@;
        let ghost stat = self.analysis.stat.table_rows@;
        let ghost cat = self.analysis.catalog.indexes@;
        let mut best = expr;
        let mut best_cost = tree_cost(&best, &self.analysis.stat);
        let ghost mut ev: Seq<(Seq<NodeV>, Seq<NodeV>, EGraph, EGraph, Id, bool)> = Seq::empty();
        let mut round: usize = 0;
        while round < rounds
            invariant
                stat == self.analysis.stat.table_rows@,
                cat == self.analysis.catalog.indexes@,
                best.wf(),
                best_cost == expr_cost(best@, stat),
                expr_cost(best@, stat) <= expr_cost(e0, stat),
                round <= rounds,
                ev.len() == round,
                round == 0 ==> best@ == e0,
                round > 0 ==> ev[0].0 == e0 && best@ == ev[round - 1].1,
                forall|i: int| 0 < i < round ==> (#[trigger] ev[i]).0 == ev[i - 1].1,
                forall|i: int|
                    0 <= i < round ==> round_evidence(
                        cat,
                        rules@,
                        stat,
                        (#[trigger] ev[i]).0,
                        ev[i].1,
                        ev[i].2,
                        ev[i].3,
                        ev[i].4,
                        ev[i].5,
                    ),
            decreases rounds - round,
        {
            let ghost seed = best@;
            let ghost seed_cost = best_cost;
            let mut g = EGraph::new();
            let n_best = best.len();
            proof {
                // A vector's length bounds the slots the fresh graph needs.
                assert(g.n_slots() + n_best <= usize::MAX);
            }
            let root = g.add_expr(&self.analysis, &best);
            let ghost gs = g;
            let outcome = run_rules(&mut g, &self.analysis, rules, iter_limit, DEFAULT_NODE_LIMIT);
            let ghost gf = g;
            let ghost sat = outcome.0 is Saturated;
            let res = extract_best(&g, root);
            match res {
                Ok(candidate) => {
                    let ghost cand_v = candidate.1@;
                    let cand_cost = tree_cost(&candidate.1, &self.analysis.stat);
                    if cand_cost <= best_cost {
                        best = candidate.1;
                        best_cost = cand_cost;
                    }
                    proof {
                        assert forall|cv: Seq<u64>| #[trigger] cost_fixpoint(gf, cv) implies (if cv[gf.uf@[root as int] as int] < UNREACHABLE {
                            exists|cand: Seq<NodeV>|
                                #![auto]
                                {
                                    &&& nodes_wf(cand)
                                    &&& represents(gf, cand, cand.len() - 1, gf.uf@[root as int])
                                    &&& best@ == (if expr_cost(cand, stat) <= expr_cost(
                                        seed,
                                        stat,
                                    ) {
                                        cand
                                    } else {
                                        seed
                                    })
                                }
                        } else {
                            best@ == seed
                        }) by {
                            assert(cv[gf.uf@[root as int] as int] < UNREACHABLE);
                            assert(nodes_wf(cand_v));
                            assert(represents(gf, cand_v, cand_v.len() - 1, gf.uf@[root as int]));
                            assert(best@ == (if expr_cost(cand_v, stat) <= expr_cost(seed, stat) {
                                cand_v
                            } else {
                                seed
                            }));
                        }
                        assert(round_evidence(cat, rules@, stat, seed, best@, gs, gf, root, sat));
                        ev = ev.push((seed, best@, gs, gf, root, sat));
                    }
                },
                Err(_) => {
                    // Internal-invariant violation in extraction: keep the
                    // current best and continue.
                    proof {
                        assert forall|cv: Seq<u64>| #[trigger] cost_fixpoint(gf, cv) implies !(
                        cv[gf.uf@[root as int] as int] < UNREACHABLE) by {}
                        assert(round_evidence(cat, rules@, stat, seed, best@, gs, gf, root, sat));
                        ev = ev.push((seed, best@, gs, gf, root, sat));
                    }
                },
            }
            let stats = g.class_stats();
            let rec = StageRecord {
                stage,
                round,
                best_cost,
                class_count: stats.2,
                node_count: g.total_size(),
                min_class_nodes: stats.0,
                max_class_nodes: stats.1,
                plan_ops: best.count_plan_ops(),
                merge_count: g.merge_count(),
                applied_matches: outcome.1,
            };
            obs.on_round(&rec);
            round = round + 1;
        }
        (best, Ghost(ev))
    }
}

} // verus!
