//! The bounded equality-saturation loop.
//!
//! Each iteration runs three phases: matching (every rule searched against
//! one immutable snapshot), applying (each match executed in order), and
//! rebuilding (congruence closure restored). The loop stops at the
//! configured iteration limit, at a true fixpoint for the rule set (no new
//! node or union in an iteration), or when the node-count safety bound is
//! exceeded — a graceful cutoff, not a failure: extraction proceeds on the
//! partial graph.

use vstd::prelude::*;

use crate::analysis::ExprAnalysis;
use crate::cost::add_sat;
use crate::egraph::{equiv_preserved, lemma_equiv_trans, memo_keys, EGraph};
use crate::expr::{Id, Op};
use crate::rules::{apply_match, before, fm_at, fm_match, index_match_of, lemma_complete_mono,
    lemma_contains_concat, lemma_index_match_same, lemma_match_applied_same, lemma_match_ok_mono,
    lemma_same_view, match_applied, match_ok, rule_saturated, rules_saturated, search_complete,
    search_rule, Rule, RuleMatch};

verus! {

/// Default safety bound on the number of node slots.
pub const DEFAULT_NODE_LIMIT: usize = 10000;

/// Why a saturation run stopped.
#[derive(Clone, Copy, PartialEq, Eq, Structural, Debug)]
pub enum StopReason {
    /// An iteration produced no new node and no new union: a true
    /// fixpoint for this rule set.
    Saturated,
    /// The configured iteration limit was reached.
    IterationLimit,
    /// The node-count safety bound was exceeded; the graph is left usable.
    NodeLimit,
}

/// Run the rules against the graph until saturation, the iteration limit,
/// or the node bound. Returns the stop reason and the number of matches
/// applied. Only adds nodes and equivalences: whatever was equal before
/// stays equal, and the merge counter never decreases. `Saturated` means
/// a true fixpoint for this rule set: every pattern standing in the final
/// graph already has its rewrite present and united
/// ([`rules_saturated`]). `NodeLimit` means the safety bound was
/// exceeded; the graph is left usable and extraction can proceed.
pub fn run_rules(
    g: &mut EGraph,
    anal: &ExprAnalysis,
    rules: &Vec<Rule>,
    iter_limit: usize,
    node_limit: usize,
) -> (r: (StopReason, u64))
    requires
        old(g).wf(),
    ensures
        final(g).wf(),
        final(g).merges >= old(g).merges,
        final(g).worklist@.len() == 0,
        final(g).n_slots() >= old(g).n_slots(),
        equiv_preserved(*old(g), *final(g)),
        r.0 is Saturated ==> rules_saturated(*final(g), anal.catalog.indexes@, rules@),
        r.0 is NodeLimit ==> final(g).n_slots() > node_limit || final(g).n_slots() > usize::MAX
            - 2,
{
    let ghost g0 = *old(g);
    let ghost cat = anal.catalog.indexes@;
    // Effective safety bound; the slack below usize::MAX keeps every
    // insertion's arithmetic in range.
    let cap = if node_limit <= usize::MAX - 2 {
        node_limit
    } else {
        usize::MAX - 2
    };
    // Congruence must hold before any matching pass.
    g.rebuild();
    proof {
        assert(equiv_preserved(g0, *g));
    }
    let mut applied: u64 = 0;
    let mut it: usize = 0;
    while it < iter_limit
        invariant
            g0 == *old(g),
            cat == anal.catalog.indexes@,
            cap == if node_limit <= usize::MAX - 2 {
                node_limit
            } else {
                (usize::MAX - 2) as usize
            },
            g.wf(),
            g.merges >= g0.merges,
            g.worklist@.len() == 0,
            g.n_slots() >= g0.n_slots(),
            equiv_preserved(g0, *g),
            it <= iter_limit,
        decreases iter_limit - it,
    {
        let n0 = g.len();
        let r0 = g.number_of_classes();
        let ghost snap = *g;
        // Matching: every rule's searcher runs against this one snapshot.
        let mut matches: Vec<RuleMatch> = Vec::new();
        let mut ri: usize = 0;
        while ri < rules.len()
            invariant
                g.wf(),
                *g == snap,
                cat == anal.catalog.indexes@,
                ri <= rules@.len(),
                forall|k: int|
                    0 <= k < matches@.len() ==> match_ok(#[trigger] matches@[k], g.n_slots()),
                forall|i: int|
                    0 <= i < ri ==> search_complete(snap, cat, #[trigger] rules@[i], matches@),
            decreases rules@.len() - ri,
        {
            let mut found = search_rule(g, anal, rules[ri]);
            let ghost pre = matches@;
            let ghost fnd = found@;
            matches.append(&mut found);
            proof {
                assert(matches@ == pre + fnd);
                assert forall|k: int| 0 <= k < matches@.len() implies match_ok(
                    #[trigger] matches@[k],
                    g.n_slots(),
                ) by {
                    if k < pre.len() {
                        assert(matches@[k] == pre[k]);
                    } else {
                        assert(matches@[k] == fnd[k - pre.len()]);
                    }
                }
                assert forall|i: int| 0 <= i < ri + 1 implies search_complete(
                    snap,
                    cat,
                    #[trigger] rules@[i],
                    matches@,
                ) by {
                    if i < ri {
                        assert forall|y: RuleMatch| pre.contains(y) implies matches@.contains(
                            y,
                        ) by {
                            lemma_contains_concat(pre, fnd, y);
                        }
                        lemma_complete_mono(
                            snap,
                            cat,
                            rules@[i],
                            pre,
                            matches@,
                            snap.n_slots() as int,
                            0,
                        );
                    } else {
                        assert forall|y: RuleMatch| fnd.contains(y) implies matches@.contains(
                            y,
                        ) by {
                            lemma_contains_concat(pre, fnd, y);
                        }
                        lemma_complete_mono(
                            snap,
                            cat,
                            rules@[i],
                            fnd,
                            matches@,
                            snap.n_slots() as int,
                            0,
                        );
                    }
                }
            }
            ri = ri + 1;
        }
        // Applying: in match order; growth past the safety bound is cut
        // off. As long as nothing grew or folded, every application so
        // far left the graph untouched with its rewrite already present.
        let mut mi: usize = 0;
        while mi < matches.len()
            invariant
                g.wf(),
                cat == anal.catalog.indexes@,
                cap <= usize::MAX - 2,
                mi <= matches@.len(),
                g.merges >= g0.merges,
                g.n_slots() >= snap.n_slots(),
                snap.n_slots() >= g0.n_slots(),
                equiv_preserved(g0, *g),
                forall|k: int|
                    0 <= k < matches@.len() ==> match_ok(#[trigger] matches@[k], snap.n_slots()),
                g.n_slots() == snap.n_slots() ==> g.uf.spec_roots() <= snap.uf.spec_roots(),
                g.n_slots() == snap.n_slots() && g.uf.spec_roots() == snap.uf.spec_roots()
                    && snap.n_slots() <= cap ==> *g == snap && (forall|j: int|
                    0 <= j < mi ==> match_applied(snap, snap, #[trigger] matches@[j])),
            decreases matches@.len() - mi,
        {
            if g.len() <= cap {
                let ghost pre = *g;
                proof {
                    lemma_match_ok_mono(matches@[mi as int], snap.n_slots(), g.n_slots());
                }
                apply_match(g, anal, &matches[mi]);
                applied = add_sat(applied, 1);
                proof {
                    lemma_equiv_trans(g0, pre, *g);
                    if g.n_slots() == snap.n_slots() && g.uf.spec_roots() == snap.uf.spec_roots()
                        && snap.n_slots() <= cap {
                        assert(pre.n_slots() == snap.n_slots());
                        assert(g.uf.spec_roots() <= pre.uf.spec_roots());
                        assert(pre.uf.spec_roots() <= snap.uf.spec_roots());
                        assert(pre.uf.spec_roots() == snap.uf.spec_roots());
                        assert(pre == snap);
                        assert(*g == pre);
                        assert(match_applied(pre, *g, matches@[mi as int]));
                    }
                }
            }
            mi = mi + 1;
        }
        // Rebuilding: congruence closure restored.
        let ghost postapply = *g;
        g.rebuild();
        proof {
            lemma_equiv_trans(g0, postapply, *g);
        }
        if g.len() > cap {
            return (StopReason::NodeLimit, applied);
        }
        if g.len() == n0 && g.number_of_classes() == r0 {
            proof {
                // No slot was created and no class was folded in the whole
                // iteration, so the graph still is the snapshot; every
                // match was applied, and by search completeness every
                // standing pattern's rewrite is present: a true fixpoint.
                assert(g.n_slots() == postapply.n_slots());
                assert(postapply.n_slots() == snap.n_slots());
                assert(g.uf.spec_roots() <= postapply.uf.spec_roots());
                assert(postapply.uf.spec_roots() <= snap.uf.spec_roots());
                assert(g.uf.spec_roots() == snap.uf.spec_roots());
                assert(postapply.uf.spec_roots() == snap.uf.spec_roots());
                assert(postapply == snap);
                assert(forall|j: int|
                    0 <= j < matches@.len() ==> match_applied(
                        snap,
                        snap,
                        #[trigger] matches@[j],
                    ));
                assert(g.uf@ == snap.uf@);
                assert(g.classes@ == snap.classes@);
                assert(memo_keys(g.memo@) == memo_keys(snap.memo@));
                lemma_same_view(snap, *g);
                assert forall|i: int| 0 <= i < rules@.len() implies rule_saturated(
                    *g,
                    cat,
                    #[trigger] rules@[i],
                ) by {
                    assert(search_complete(snap, cat, rules@[i], matches@));
                    match rules@[i] {
                        Rule::AndCommute => {
                            assert forall|p: int, q: int|
                                0 <= p < g.n_slots() && 0 <= q < g.class_nodes(p).len() && (
                                #[trigger] g.class_nodes(p)[q]).0 == Op::And implies match_applied(
                                *g,
                                *g,
                                RuleMatch::AndCommute {
                                    class: p as Id,
                                    a: g.class_nodes(p)[q].1[0],
                                    b: g.class_nodes(p)[q].1[1],
                                },
                            ) by {
                                let mv = RuleMatch::AndCommute {
                                    class: p as Id,
                                    a: snap.class_nodes(p)[q].1[0],
                                    b: snap.class_nodes(p)[q].1[1],
                                };
                                assert(snap.class_nodes(p) == g.class_nodes(p));
                                assert(before(p, q, snap.n_slots() as int, 0));
                                assert(matches@.contains(mv));
                                let j = choose|j: int|
                                    0 <= j < matches@.len() && matches@[j] == mv;
                                assert(match_applied(snap, snap, mv));
                                lemma_match_applied_same(snap, *g, mv);
                            }
                        },
                        Rule::FilterMerge => {
                            assert forall|p: int, q: int, q2: int| #[trigger] fm_at(
                                *g,
                                p,
                                q,
                                q2,
                            ) implies match_applied(*g, *g, fm_match(*g, p, q, q2)) by {
                                assert(fm_at(snap, p, q, q2));
                                assert(fm_match(snap, p, q, q2) == fm_match(*g, p, q, q2));
                                let mv = fm_match(snap, p, q, q2);
                                assert(before(p, q, snap.n_slots() as int, 0));
                                assert(matches@.contains(mv));
                                let j = choose|j: int|
                                    0 <= j < matches@.len() && matches@[j] == mv;
                                assert(match_applied(snap, snap, mv));
                                lemma_match_applied_same(snap, *g, mv);
                            }
                        },
                        Rule::FilterToIndexScan => {
                            assert forall|p: int, q: int|
                                0 <= p < g.n_slots() && 0 <= q < g.class_nodes(p).len() implies (
                            #[trigger] index_match_of(*g, cat, p, q) matches Some(mm)
                                ==> match_applied(*g, *g, mm)) by {
                                lemma_index_match_same(snap, *g, cat, p, q);
                                match index_match_of(snap, cat, p, q) {
                                    Some(mv) => {
                                        assert(snap.class_nodes(p) == g.class_nodes(p));
                                        assert(before(p, q, snap.n_slots() as int, 0));
                                        assert(matches@.contains(mv));
                                        let j = choose|j: int|
                                            0 <= j < matches@.len() && matches@[j] == mv;
                                        assert(match_applied(snap, snap, mv));
                                        lemma_match_applied_same(snap, *g, mv);
                                    },
                                    None => {},
                                }
                            }
                        },
                        Rule::JoinCommute => {
                            assert forall|p: int, q: int|
                                0 <= p < g.n_slots() && 0 <= q < g.class_nodes(p).len() && (
                                #[trigger] g.class_nodes(p)[q]).0 == Op::Join implies
                                match_applied(
                                *g,
                                *g,
                                RuleMatch::JoinCommute {
                                    class: p as Id,
                                    cond: g.class_nodes(p)[q].1[0],
                                    l: g.class_nodes(p)[q].1[1],
                                    r: g.class_nodes(p)[q].1[2],
                                },
                            ) by {
                                let mv = RuleMatch::JoinCommute {
                                    class: p as Id,
                                    cond: snap.class_nodes(p)[q].1[0],
                                    l: snap.class_nodes(p)[q].1[1],
                                    r: snap.class_nodes(p)[q].1[2],
                                };
                                assert(snap.class_nodes(p) == g.class_nodes(p));
                                assert(before(p, q, snap.n_slots() as int, 0));
                                assert(matches@.contains(mv));
                                let j = choose|j: int|
                                    0 <= j < matches@.len() && matches@[j] == mv;
                                assert(match_applied(snap, snap, mv));
                                lemma_match_applied_same(snap, *g, mv);
                            }
                        },
                        Rule::JoinToHashJoin => {
                            assert forall|p: int, q: int|
                                0 <= p < g.n_slots() && 0 <= q < g.class_nodes(p).len() && (
                                #[trigger] g.class_nodes(p)[q]).0 == Op::Join implies
                                match_applied(
                                *g,
                                *g,
                                RuleMatch::JoinToHashJoin {
                                    class: p as Id,
                                    cond: g.class_nodes(p)[q].1[0],
                                    l: g.class_nodes(p)[q].1[1],
                                    r: g.class_nodes(p)[q].1[2],
                                },
                            ) by {
                                let mv = RuleMatch::JoinToHashJoin {
                                    class: p as Id,
                                    cond: snap.class_nodes(p)[q].1[0],
                                    l: snap.class_nodes(p)[q].1[1],
                                    r: snap.class_nodes(p)[q].1[2],
                                };
                                assert(snap.class_nodes(p) == g.class_nodes(p));
                                assert(before(p, q, snap.n_slots() as int, 0));
                                assert(matches@.contains(mv));
                                let j = choose|j: int|
                                    0 <= j < matches@.len() && matches@[j] == mv;
                                assert(match_applied(snap, snap, mv));
                                lemma_match_applied_same(snap, *g, mv);
                            }
                        },
                        Rule::OrderOnSorted => {
                            assert forall|p: int, q: int|
                                0 <= p < g.n_slots() && 0 <= q < g.class_nodes(p).len() && (
                                #[trigger] g.class_nodes(p)[q]).0 == Op::Order implies
                                match_applied(
                                *g,
                                *g,
                                RuleMatch::OrderOnSorted {
                                    class: p as Id,
                                    child: g.class_nodes(p)[q].1[1],
                                },
                            ) by {
                                let mv = RuleMatch::OrderOnSorted {
                                    class: p as Id,
                                    child: snap.class_nodes(p)[q].1[1],
                                };
                                assert(snap.class_nodes(p) == g.class_nodes(p));
                                assert(before(p, q, snap.n_slots() as int, 0));
                                assert(matches@.contains(mv));
                                let j = choose|j: int|
                                    0 <= j < matches@.len() && matches@[j] == mv;
                                assert(match_applied(snap, snap, mv));
                                lemma_match_applied_same(snap, *g, mv);
                            }
                        },
                    }
                }
                assert(rules_saturated(*g, cat, rules@));
            }
            return (StopReason::Saturated, applied);
        }
        it = it + 1;
    }
    (StopReason::IterationLimit, applied)
}

} // verus!
