//! Cost-based extraction: a bottom-up minimum-cost dynamic program over
//! the classes, and the expansion of the chosen members into a flat
//! expression.
//!
//! The program relaxes a per-class cost vector downward from the
//! unreachable sentinel until a fixpoint: afterwards every class's cost is
//! at most every member's candidate cost, and any reachable cost is
//! achieved by some member. A class that (transitively) depends only on
//! itself keeps the sentinel and is never selected
//! ([`lemma_cycle_unreachable`]). Expansion picks, per class, the first
//! member in iteration order achieving the minimum — a documented, fixed
//! tie-break — and terminates because every base cost is positive, so a
//! child's cost is strictly below its parent's.

use vstd::prelude::*;

use crate::cost::{base_cost, base_cost_exec, lemma_base_cost_pos, sat_add, sat_sum, add_sat,
    sum_sat};
use crate::egraph::{class_child_rows, EGraph};
use crate::expr::{nv, shape_ok, ENode, Id, NodeV};
use crate::recexpr::{nodes_wf, PlanError, RecExpr};

verus! {

/// Cost of a class no concrete expression can realize.
pub const UNREACHABLE: u64 = u64::MAX;

/// Costs of a node's children, read through their canonical classes.
pub open spec fn child_class_costs(g: EGraph, costs: Seq<u64>, ch: Seq<Id>) -> Seq<u64> {
    ch.map_values(|c: Id| costs[g.uf@[c as int] as int])
}

/// Candidate cost of selecting one member node: its base cost over the
/// children's row estimates, plus the children's class costs.
pub open spec fn cand_cost(g: EGraph, costs: Seq<u64>, v: NodeV) -> u64 {
    sat_add(
        base_cost(v.0, class_child_rows(g, v.1)),
        sat_sum(child_class_costs(g, costs, v.1)),
    )
}

/// Fixpoint, lower side: no class cost exceeds any of its members'
/// candidate costs.
pub open spec fn costs_le(g: EGraph, costs: Seq<u64>) -> bool {
    forall|c: int, k: int|
        0 <= c < g.n_slots() && g.uf@[c] == c && 0 <= k < g.class_nodes(c).len() ==> costs[c]
            <= cand_cost(g, costs, #[trigger] g.class_nodes(c)[k])
}

/// Fixpoint, upper side: every reachable class cost is achieved by one of
/// its members.
pub open spec fn costs_justified(g: EGraph, costs: Seq<u64>) -> bool {
    forall|c: int|
        0 <= c < g.n_slots() && g.uf@[c] == c && #[trigger] costs[c] < UNREACHABLE
            ==> exists|k: int|
            0 <= k < g.class_nodes(c).len() && costs[c] == cand_cost(
                g,
                costs,
                #[trigger] g.class_nodes(c)[k],
            )
}

/// Both fixpoint sides together: the per-class minimum-cost vector. On
/// canonical classes such a vector is unique ([`lemma_fixpoint_unique`]),
/// so a contract stated against every fixpoint vector pins the cost down.
pub open spec fn cost_fixpoint(g: EGraph, cv: Seq<u64>) -> bool {
    &&& cv.len() == g.n_slots()
    &&& costs_le(g, cv)
    &&& costs_justified(g, cv)
}

/// Position `i` of a node sequence is representable by class `c` of the
/// graph: some member of the class carries the node's operator, and its
/// children's classes represent the node's children (which stand strictly
/// earlier in the sequence).
pub open spec fn represents(g: EGraph, nodes: Seq<NodeV>, i: int, c: Id) -> bool
    decreases i, 1int,
{
    exists|k: int|
        0 <= k < g.class_nodes(c as int).len() && {
            let v = #[trigger] g.class_nodes(c as int)[k];
            &&& v.0 == nodes[i].0
            &&& v.1.len() == nodes[i].1.len()
            &&& forall|j: int|
                0 <= j < v.1.len() ==> child_represented(
                    g,
                    nodes,
                    i,
                    nodes[i].1[j] as int,
                    g.uf@[#[trigger] v.1[j] as int],
                )
        }
}

/// A child position is represented: it stands strictly before its parent
/// and its own class represents it.
pub open spec fn child_represented(g: EGraph, nodes: Seq<NodeV>, i: int, ci: int, c: Id) -> bool
    decreases i, 0int,
{
    if 0 <= ci < i {
        represents(g, nodes, ci, c)
    } else {
        false
    }
}

/// Representability only reads the sequence up to the position, so it
/// survives appending further nodes.
pub proof fn lemma_represents_prefix(g: EGraph, n1: Seq<NodeV>, n2: Seq<NodeV>, i: int, c: Id)
    requires
        0 <= i < n1.len(),
        n1.is_prefix_of(n2),
        represents(g, n1, i, c),
    ensures
        represents(g, n2, i, c),
    decreases i,
{
    let k = choose|k: int|
        0 <= k < g.class_nodes(c as int).len() && {
            let v = #[trigger] g.class_nodes(c as int)[k];
            &&& v.0 == n1[i].0
            &&& v.1.len() == n1[i].1.len()
            &&& forall|j: int|
                0 <= j < v.1.len() ==> child_represented(
                    g,
                    n1,
                    i,
                    n1[i].1[j] as int,
                    g.uf@[#[trigger] v.1[j] as int],
                )
        };
    let v = g.class_nodes(c as int)[k];
    assert(n2[i] == n1[i]);
    assert forall|j: int| 0 <= j < v.1.len() implies child_represented(
        g,
        n2,
        i,
        n2[i].1[j] as int,
        g.uf@[#[trigger] v.1[j] as int],
    ) by {
        assert(child_represented(g, n1, i, n1[i].1[j] as int, g.uf@[v.1[j] as int]));
        lemma_represents_prefix(g, n1, n2, n1[i].1[j] as int, g.uf@[v.1[j] as int]);
    }
}

/// Relaxation invariant: every reachable class cost is at least one
/// member's candidate cost under the current vector. Preserved by further
/// relaxation because candidates only shrink.
pub open spec fn costs_ge_some(g: EGraph, costs: Seq<u64>) -> bool {
    forall|c: int|
        0 <= c < g.n_slots() && g.uf@[c] == c && #[trigger] costs[c] < UNREACHABLE
            ==> exists|k: int|
            0 <= k < g.class_nodes(c).len() && costs[c] >= cand_cost(
                g,
                costs,
                #[trigger] g.class_nodes(c)[k],
            )
}

/// Exact (non-saturating) sum, for the termination measure.
pub open spec fn sum_int(s: Seq<u64>) -> int
    decreases s.len(),
{
    if s.len() == 0 {
        0
    } else {
        sum_int(s.drop_last()) + s.last()
    }
}

proof fn lemma_sum_int_nonneg(s: Seq<u64>)
    ensures
        sum_int(s) >= 0,
    decreases s.len(),
{
    if s.len() > 0 {
        lemma_sum_int_nonneg(s.drop_last());
    }
}

proof fn lemma_sum_int_update(s: Seq<u64>, i: int, v: u64)
    requires
        0 <= i < s.len(),
    ensures
        sum_int(s.update(i, v)) == sum_int(s) - s[i] + v,
    decreases s.len(),
{
    if i == s.len() - 1 {
        assert(s.update(i, v).drop_last() =~= s.drop_last());
        assert(s.update(i, v).last() == v);
    } else {
        assert(s.update(i, v).drop_last() =~= s.drop_last().update(i, v));
        assert(s.update(i, v).last() == s.last());
        lemma_sum_int_update(s.drop_last(), i, v);
    }
}

proof fn lemma_sat_sum_mono(s1: Seq<u64>, s2: Seq<u64>)
    requires
        s1.len() == s2.len(),
        forall|i: int| 0 <= i < s1.len() ==> s1[i] <= s2[i],
    ensures
        sat_sum(s1) <= sat_sum(s2),
    decreases s1.len(),
{
    if s1.len() > 0 {
        lemma_sat_sum_mono(s1.drop_last(), s2.drop_last());
    }
}

/// When a saturating sum stays below the sentinel it is exact, and every
/// element is bounded by it.
proof fn lemma_sat_sum_elem(s: Seq<u64>)
    requires
        sat_sum(s) < u64::MAX,
    ensures
        forall|i: int| 0 <= i < s.len() ==> s[i] <= sat_sum(s),
    decreases s.len(),
{
    if s.len() > 0 {
        assert(sat_sum(s.drop_last()) <= sat_sum(s));
        lemma_sat_sum_elem(s.drop_last());
        assert forall|i: int| 0 <= i < s.len() implies s[i] <= sat_sum(s) by {
            if i < s.len() - 1 {
                assert(s.drop_last()[i] == s[i]);
            }
        }
    }
}

/// Candidate costs shrink when class costs shrink.
proof fn lemma_cand_mono(g: EGraph, c1: Seq<u64>, c2: Seq<u64>, v: NodeV)
    requires
        g.wf(),
        shape_ok(v, g.n_slots()),
        c1.len() == g.n_slots(),
        c2.len() == g.n_slots(),
        forall|q: int| 0 <= q < g.n_slots() ==> c1[q] <= c2[q],
    ensures
        cand_cost(g, c1, v) <= cand_cost(g, c2, v),
{
    let s1 = child_class_costs(g, c1, v.1);
    let s2 = child_class_costs(g, c2, v.1);
    assert forall|j: int| 0 <= j < s1.len() implies s1[j] <= s2[j] by {
        assert((v.1[j] as nat) < g.n_slots());
        assert((g.uf@[v.1[j] as int] as int) < g.n_slots() as int);
    }
    lemma_sat_sum_mono(s1, s2);
}

/// One fixpoint vector bounds another from below: on a canonical class,
/// the second vector's cost never exceeds the first's. Induction on the
/// first vector's cost; children cost strictly less because every base
/// cost is positive.
proof fn lemma_fixpoint_le(g: EGraph, ca: Seq<u64>, cb: Seq<u64>, c: int)
    requires
        g.wf(),
        cost_fixpoint(g, ca),
        cost_fixpoint(g, cb),
        0 <= c < g.n_slots(),
        g.uf@[c] == c,
    ensures
        cb[c] <= ca[c],
    decreases ca[c],
{
    if ca[c] < UNREACHABLE {
        let k = choose|k: int|
            0 <= k < g.class_nodes(c).len() && ca[c] == cand_cost(g, ca, g.class_nodes(c)[k]);
        let v = g.class_nodes(c)[k];
        assert(shape_ok(v, g.n_slots()));
        let base = base_cost(v.0, class_child_rows(g, v.1));
        let sa = child_class_costs(g, ca, v.1);
        let sb = child_class_costs(g, cb, v.1);
        lemma_base_cost_pos(v.0, class_child_rows(g, v.1));
        assert(sat_add(base, sat_sum(sa)) == ca[c]);
        assert(sat_sum(sa) < u64::MAX);
        lemma_sat_sum_elem(sa);
        assert forall|j: int| 0 <= j < sa.len() implies sb[j] <= sa[j] by {
            assert((v.1[j] as nat) < g.n_slots());
            let d = g.uf@[v.1[j] as int] as int;
            assert(0 <= d < g.n_slots());
            assert(g.uf@[d] == d);
            assert(sa[j] == ca[d]);
            assert(sa[j] <= sat_sum(sa));
            assert(ca[d] < ca[c]);
            lemma_fixpoint_le(g, ca, cb, d);
            assert(sb[j] == cb[d]);
        }
        lemma_sat_sum_mono(sb, sa);
        assert(cb[c] <= cand_cost(g, cb, v));
    }
}

/// The fixpoint cost of a canonical class is unique: any two vectors
/// meeting both fixpoint sides agree on it.
pub proof fn lemma_fixpoint_unique(g: EGraph, ca: Seq<u64>, cb: Seq<u64>, c: int)
    requires
        g.wf(),
        cost_fixpoint(g, ca),
        cost_fixpoint(g, cb),
        0 <= c < g.n_slots(),
        g.uf@[c] == c,
    ensures
        ca[c] == cb[c],
{
    lemma_fixpoint_le(g, ca, cb, c);
    lemma_fixpoint_le(g, cb, ca, c);
}

/// The candidate cost of one member node under the current vector.
fn cand_exec(g: &EGraph, costs: &Vec<u64>, node: &ENode) -> (r: u64)
    requires
        g.wf(),
        costs@.len() == g.n_slots(),
        shape_ok(nv(*node), g.n_slots()),
    ensures
        r == cand_cost(*g, costs@, nv(*node)),
{
    let mut crows: Vec<u64> = Vec::new();
    let mut ccosts: Vec<u64> = Vec::new();
    let mut j: usize = 0;
    while j < node.children.len()
        invariant
            g.wf(),
            costs@.len() == g.n_slots(),
            shape_ok(nv(*node), g.n_slots()),
            j <= node.children@.len(),
            crows@.len() == j,
            ccosts@.len() == j,
            forall|k: int|
                0 <= k < j ==> crows@[k] == g.classes@[g.uf@[#[trigger] node.children@[k] as int] as int].rows,
            forall|k: int|
                0 <= k < j ==> ccosts@[k] == costs@[g.uf@[#[trigger] node.children@[k] as int] as int],
        decreases node.children@.len() - j,
    {
        let c = g.find(node.children[j]);
        crows.push(g.classes[c].rows);
        ccosts.push(costs[c]);
        j = j + 1;
    }
    proof {
        assert(crows@ =~= class_child_rows(*g, node.children@));
        assert(ccosts@ =~= child_class_costs(*g, costs@, node.children@));
    }
    add_sat(base_cost_exec(node.op, &crows), sum_sat(&ccosts))
}

/// The per-class minimum-cost vector, by downward relaxation to a
/// fixpoint. Non-canonical slots keep the unreachable sentinel; canonical
/// classes end at most every member's candidate cost, and any cost below
/// the sentinel is achieved by a member.
#[verifier::rlimit(100)]
pub fn class_costs(g: &EGraph) -> (r: Vec<u64>)
    requires
        g.wf(),
    ensures
        r@.len() == g.n_slots(),
        costs_le(*g, r@),
        costs_justified(*g, r@),
        forall|c: int| 0 <= c < g.n_slots() && g.uf@[c] != c ==> r@[c] == UNREACHABLE,
{
    let n = g.len();
    let mut costs: Vec<u64> = Vec::new();
    while costs.len() < n
        invariant
            costs@.len() <= n,
            forall|q: int| 0 <= q < costs@.len() ==> costs@[q] == UNREACHABLE,
        decreases n - costs@.len(),
    {
        costs.push(UNREACHABLE);
    }
    proof {
        lemma_sum_int_nonneg(costs@);
    }
    loop
        invariant
            g.wf(),
            n == g.n_slots(),
            costs@.len() == n,
            costs_ge_some(*g, costs@),
            sum_int(costs@) >= 0,
            forall|c: int| 0 <= c < n && g.uf@[c] != c ==> costs@[c] == UNREACHABLE,
        ensures
            costs@.len() == n,
            costs_le(*g, costs@),
            costs_justified(*g, costs@),
            forall|c: int| 0 <= c < n && g.uf@[c] != c ==> costs@[c] == UNREACHABLE,
        decreases sum_int(costs@),
    {
        proof {
            lemma_sum_int_nonneg(costs@);
        }
        let ghost start = costs@;
        let mut changed = false;
        let mut c: usize = 0;
        while c < n
            invariant
                g.wf(),
                n == g.n_slots(),
                costs@.len() == n,
                start.len() == n,
                c <= n,
                forall|q: int| 0 <= q < n ==> costs@[q] <= start[q],
                !changed ==> costs@ == start,
                changed ==> sum_int(costs@) < sum_int(start),
                sum_int(costs@) >= 0,
                costs_ge_some(*g, costs@),
                forall|q: int| 0 <= q < n && g.uf@[q] != q ==> costs@[q] == UNREACHABLE,
                forall|q: int, k: int|
                    !changed && 0 <= q < c && g.uf@[q] == q && 0 <= k < g.class_nodes(q).len()
                        ==> costs@[q] <= cand_cost(*g, costs@, #[trigger] g.class_nodes(q)[k]),
            decreases n - c,
        {
            if g.find(c) == c {
                let m = g.classes[c].nodes.len();
                let mut k: usize = 0;
                while k < m
                    invariant
                        g.wf(),
                        n == g.n_slots(),
                        costs@.len() == n,
                        start.len() == n,
                        c < n,
                        g.uf@[c as int] == c,
                        m == g.classes@[c as int].nodes@.len(),
                        k <= m,
                        forall|q: int| 0 <= q < n ==> costs@[q] <= start[q],
                        !changed ==> costs@ == start,
                        changed ==> sum_int(costs@) < sum_int(start),
                        sum_int(costs@) >= 0,
                        costs_ge_some(*g, costs@),
                        forall|q: int| 0 <= q < n && g.uf@[q] != q ==> costs@[q] == UNREACHABLE,
                        forall|q: int, kk: int|
                            !changed && 0 <= q < c && g.uf@[q] == q && 0 <= kk < g.class_nodes(
                                q,
                            ).len() ==> costs@[q] <= cand_cost(
                                *g,
                                costs@,
                                #[trigger] g.class_nodes(q)[kk],
                            ),
                        forall|kk: int|
                            !changed && 0 <= kk < k ==> costs@[c as int] <= cand_cost(
                                *g,
                                costs@,
                                #[trigger] g.class_nodes(c as int)[kk],
                            ),
                    decreases m - k,
                {
                    let node = &g.classes[c].nodes[k];
                    proof {
                        assert(shape_ok(nv(g.classes@[c as int].nodes@[k as int]), g.n_slots()));
                    }
                    let cand = cand_exec(g, &costs, node);
                    proof {
                        assert(nv(*node) == g.class_nodes(c as int)[k as int]);
                    }
                    if cand < costs[c] {
                        let ghost pre = costs@;
                        proof {
                            lemma_sum_int_update(pre, c as int, cand);
                            lemma_sum_int_nonneg(pre.update(c as int, cand));
                        }
                        costs.set(c, cand);
                        changed = true;
                        proof {
                            let post = costs@;
                            // Relaxation keeps the `ge_some` invariant:
                            // candidates only shrink when costs shrink.
                            assert forall|q: int|
                                0 <= q < n && g.uf@[q] == q && #[trigger] post[q]
                                    < UNREACHABLE implies exists|kk: int|
                                0 <= kk < g.class_nodes(q).len() && post[q] >= cand_cost(
                                    *g,
                                    post,
                                    #[trigger] g.class_nodes(q)[kk],
                                ) by {
                                if q == c {
                                    assert(post[q] == cand_cost(*g, pre, nv(*node)));
                                    lemma_cand_mono(*g, post, pre, nv(*node));
                                    assert(post[q] >= cand_cost(
                                        *g,
                                        post,
                                        g.class_nodes(c as int)[k as int],
                                    ));
                                } else {
                                    assert(pre[q] == post[q]);
                                    if pre[q] < UNREACHABLE {
                                        let kk = choose|kk: int|
                                            0 <= kk < g.class_nodes(q).len() && pre[q]
                                                >= cand_cost(*g, pre, g.class_nodes(q)[kk]);
                                        lemma_cand_mono(*g, post, pre, g.class_nodes(q)[kk]);
                                        assert(post[q] >= cand_cost(
                                            *g,
                                            post,
                                            g.class_nodes(q)[kk],
                                        ));
                                    }
                                }
                            }
                        }
                    }
                    k = k + 1;
                }
            }
            c = c + 1;
        }
        if !changed {
            proof {
                // A full pass without change is the fixpoint.
                assert(costs_le(*g, costs@));
                assert forall|cc: int|
                    0 <= cc < g.n_slots() && g.uf@[cc] == cc && #[trigger] costs@[cc]
                        < UNREACHABLE implies exists|k: int|
                    0 <= k < g.class_nodes(cc).len() && costs@[cc] == cand_cost(
                        *g,
                        costs@,
                        #[trigger] g.class_nodes(cc)[k],
                    ) by {
                    let k = choose|k: int|
                        0 <= k < g.class_nodes(cc).len() && costs@[cc] >= cand_cost(
                            *g,
                            costs@,
                            g.class_nodes(cc)[k],
                        );
                    assert(costs@[cc] <= cand_cost(*g, costs@, g.class_nodes(cc)[k]));
                }
            }
            break;
        }
    }
    costs
}

/// No expression can realize a class whose every member (transitively)
/// needs the class itself: the fixpoint leaves it at the unreachable
/// sentinel. Together with the positive base costs this is why the
/// extractor terminates and never selects a self-referential member.
pub proof fn lemma_cycle_unreachable(g: EGraph, costs: Seq<u64>, c: int)
    requires
        g.wf(),
        costs.len() == g.n_slots(),
        costs_le(g, costs),
        costs_justified(g, costs),
        0 <= c < g.n_slots(),
        g.uf@[c] == c,
        forall|k: int|
            0 <= k < g.class_nodes(c).len() ==> exists|j: int|
                0 <= j < (#[trigger] g.class_nodes(c)[k]).1.len() && g.uf@[g.class_nodes(c)[k].1[j] as int]
                    == c,
    ensures
        costs[c] == UNREACHABLE,
{
    if costs[c] < UNREACHABLE {
        let k = choose|k: int|
            0 <= k < g.class_nodes(c).len() && costs[c] == cand_cost(
                g,
                costs,
                g.class_nodes(c)[k],
            );
        let v = g.class_nodes(c)[k];
        let j = choose|j: int| 0 <= j < v.1.len() && g.uf@[v.1[j] as int] == c;
        let base = base_cost(v.0, class_child_rows(g, v.1));
        let s = child_class_costs(g, costs, v.1);
        lemma_base_cost_pos(v.0, class_child_rows(g, v.1));
        // The candidate equals the class cost and is below the sentinel,
        // so the saturating arithmetic is exact.
        assert(sat_add(base, sat_sum(s)) == costs[c]);
        assert(sat_sum(s) < u64::MAX);
        lemma_sat_sum_elem(s);
        assert(s[j] == costs[c]);
        assert(costs[c] >= base + s[j]);
        assert(false);
    }
}

/// Expand the chosen member of `cls` (first member achieving the minimum
/// candidate cost) into `out`, children first, and return the node's
/// position. Only touches classes with reachable costs; terminates
/// because children cost strictly less than their parents.
#[verifier::rlimit(100)]
#[verifier::spinoff_prover]
fn build_class(g: &EGraph, costs: &Vec<u64>, cls: Id, out: &mut Vec<ENode>) -> (idx: usize)
    requires
        g.wf(),
        costs@.len() == g.n_slots(),
        costs_le(*g, costs@),
        costs_justified(*g, costs@),
        (cls as nat) < g.n_slots(),
        g.uf@[cls as int] == cls,
        costs@[cls as int] < UNREACHABLE,
        forall|k: int| 0 <= k < old(out)@.len() ==> shape_ok(nv(#[trigger] old(out)@[k]), k as nat),
    ensures
        final(out)@.len() > old(out)@.len(),
        idx == final(out)@.len() - 1,
        final(out)@.subrange(0, old(out)@.len() as int) == old(out)@,
        forall|k: int| 0 <= k < final(out)@.len() ==> shape_ok(nv(#[trigger] final(out)@[k]), k as nat),
        represents(*g, final(out)@.map_values(|n: ENode| nv(n)), idx as int, cls),
    decreases costs@[cls as int],
{
    let m = g.classes[cls].nodes.len();
    proof {
        // A reachable class has at least one member.
        assert(costs@[cls as int] < UNREACHABLE);
        let k0 = choose|k0: int|
            0 <= k0 < g.class_nodes(cls as int).len() && costs@[cls as int] == cand_cost(
                *g,
                costs@,
                g.class_nodes(cls as int)[k0],
            );
        assert(m > 0);
    }
    // First pass: the first member achieving the minimum candidate cost.
    let mut best_k: usize = 0;
    let node0 = &g.classes[cls].nodes[0];
    proof {
        assert(shape_ok(nv(g.classes@[cls as int].nodes@[0]), g.n_slots()));
    }
    let mut best_cand: u64 = cand_exec(g, costs, node0);
    let mut k: usize = 1;
    while k < m
        invariant
            g.wf(),
            costs@.len() == g.n_slots(),
            (cls as nat) < g.n_slots(),
            m == g.classes@[cls as int].nodes@.len(),
            1 <= k <= m,
            best_k < k,
            best_cand == cand_cost(*g, costs@, g.class_nodes(cls as int)[best_k as int]),
            forall|kk: int|
                0 <= kk < k ==> best_cand <= cand_cost(
                    *g,
                    costs@,
                    #[trigger] g.class_nodes(cls as int)[kk],
                ),
        decreases m - k,
    {
        let node = &g.classes[cls].nodes[k];
        proof {
            assert(shape_ok(nv(g.classes@[cls as int].nodes@[k as int]), g.n_slots()));
        }
        let cand = cand_exec(g, costs, node);
        if cand < best_cand {
            best_cand = cand;
            best_k = k;
        }
        k = k + 1;
    }
    proof {
        // The minimum over members is exactly the class's fixpoint cost.
        let k0 = choose|k0: int|
            0 <= k0 < g.class_nodes(cls as int).len() && costs@[cls as int] == cand_cost(
                *g,
                costs@,
                g.class_nodes(cls as int)[k0],
            );
        assert(best_cand <= cand_cost(*g, costs@, g.class_nodes(cls as int)[k0]));
        assert(costs@[cls as int] <= cand_cost(
            *g,
            costs@,
            g.class_nodes(cls as int)[best_k as int],
        ));
        assert(best_cand == costs@[cls as int]);
    }
    // Copy the chosen member out of the graph.
    let chosen = g.classes[cls].nodes[best_k].duplicate();
    let ghost v = nv(chosen);
    proof {
        assert(v == g.class_nodes(cls as int)[best_k as int]);
        assert(shape_ok(v, g.n_slots()));
        // Exact arithmetic below the sentinel: every child class is
        // reachable and strictly cheaper than this class.
        let base = base_cost(v.0, class_child_rows(*g, v.1));
        let s = child_class_costs(*g, costs@, v.1);
        lemma_base_cost_pos(v.0, class_child_rows(*g, v.1));
        assert(sat_add(base, sat_sum(s)) == costs@[cls as int]);
        assert(sat_sum(s) < u64::MAX);
        lemma_sat_sum_elem(s);
        assert forall|j: int| 0 <= j < v.1.len() implies costs@[g.uf@[#[trigger] v.1[j] as int] as int]
            < costs@[cls as int] by {
            assert(s[j] == costs@[g.uf@[v.1[j] as int] as int]);
            assert(s[j] <= sat_sum(s));
        }
    }
    // Children first, then the node itself.
    let mut new_ch: Vec<Id> = Vec::new();
    let mut j: usize = 0;
    while j < chosen.children.len()
        invariant
            g.wf(),
            costs@.len() == g.n_slots(),
            costs_le(*g, costs@),
            costs_justified(*g, costs@),
            (cls as nat) < g.n_slots(),
            shape_ok(v, g.n_slots()),
            v == nv(chosen),
            costs@[cls as int] < UNREACHABLE,
            forall|jj: int|
                0 <= jj < v.1.len() ==> costs@[g.uf@[#[trigger] v.1[jj] as int] as int] < costs@[cls as int],
            j <= chosen.children@.len(),
            new_ch@.len() == j,
            out@.len() >= old(out)@.len(),
            out@.subrange(0, old(out)@.len() as int) == old(out)@,
            forall|k2: int| 0 <= k2 < out@.len() ==> shape_ok(nv(#[trigger] out@[k2]), k2 as nat),
            forall|jj: int| 0 <= jj < j ==> (#[trigger] new_ch@[jj] as int) < out@.len(),
            forall|jj: int|
                0 <= jj < j ==> represents(
                    *g,
                    out@.map_values(|n: ENode| nv(n)),
                    #[trigger] new_ch@[jj] as int,
                    g.uf@[v.1[jj] as int],
                ),
        decreases chosen.children@.len() - j,
    {
        let c = g.find(chosen.children[j]);
        proof {
            assert(costs@[c as int] < costs@[cls as int]);
        }
        let ghost out_pre = out@;
        let cidx = build_class(g, costs, c, out);
        proof {
            assert forall|jj: int| 0 <= jj < j implies (#[trigger] new_ch@[jj] as int)
                < out@.len() by {
                assert((new_ch@[jj] as int) < out_pre.len());
            }
            assert(out@.subrange(0, out_pre.len() as int) == out_pre);
            assert forall|q: int| 0 <= q < old(out)@.len() implies out@[q] == old(out)@[q] by {
                assert(out@.subrange(0, out_pre.len() as int)[q] == out_pre[q]);
                assert(out_pre.subrange(0, old(out)@.len() as int)[q] == old(out)@[q]);
            }
            assert(out@.subrange(0, old(out)@.len() as int) =~= old(out)@);
            let pre_view = out_pre.map_values(|n: ENode| nv(n));
            let new_view = out@.map_values(|n: ENode| nv(n));
            assert(pre_view.is_prefix_of(new_view)) by {
                assert forall|q: int| 0 <= q < pre_view.len() implies new_view[q]
                    == pre_view[q] by {
                    assert(out@.subrange(0, out_pre.len() as int)[q] == out_pre[q]);
                }
                assert(new_view.subrange(0, pre_view.len() as int) =~= pre_view);
            }
            assert forall|jj: int| 0 <= jj < j implies represents(
                *g,
                new_view,
                #[trigger] new_ch@[jj] as int,
                g.uf@[v.1[jj] as int],
            ) by {
                lemma_represents_prefix(
                    *g,
                    pre_view,
                    new_view,
                    new_ch@[jj] as int,
                    g.uf@[v.1[jj] as int],
                );
            }
            assert(g.uf@[chosen.children@[j as int] as int] == c);
            assert(v.1[j as int] == chosen.children@[j as int]);
        }
        new_ch.push(cidx);
        j = j + 1;
    }
    let idx = out.len();
    proof {
        assert(new_ch@.len() == v.1.len());
    }
    let ghost pre_view = out@.map_values(|n: ENode| nv(n));
    out.push(ENode { op: chosen.op, children: new_ch });
    proof {
        assert forall|k2: int| 0 <= k2 < out@.len() implies shape_ok(
            nv(#[trigger] out@[k2]),
            k2 as nat,
        ) by {
            if k2 == out@.len() - 1 {
                assert(nv(out@[k2]).0 == v.0);
                assert(nv(out@[k2]).1.len() == v.1.len());
            }
        }
        assert(out@.subrange(0, old(out)@.len() as int) =~= old(out)@);
        // The appended node is represented by the chosen member: same
        // operator, and every child position was just shown represented
        // by the member child's class.
        let fin_view = out@.map_values(|n: ENode| nv(n));
        assert(pre_view.is_prefix_of(fin_view)) by {
            assert(fin_view.subrange(0, pre_view.len() as int) =~= pre_view);
        }
        assert(fin_view[idx as int] == (chosen.op, new_ch@));
        assert forall|jj: int| 0 <= jj < v.1.len() implies child_represented(
            *g,
            fin_view,
            idx as int,
            fin_view[idx as int].1[jj] as int,
            g.uf@[#[trigger] v.1[jj] as int],
        ) by {
            assert(fin_view[idx as int].1[jj] == new_ch@[jj]);
            assert((new_ch@[jj] as int) < idx as int);
            assert(represents(*g, pre_view, new_ch@[jj] as int, g.uf@[v.1[jj] as int]));
            lemma_represents_prefix(
                *g,
                pre_view,
                fin_view,
                new_ch@[jj] as int,
                g.uf@[v.1[jj] as int],
            );
        }
        assert(g.class_nodes(cls as int)[best_k as int] == v);
        assert(v.0 == fin_view[idx as int].0);
        assert(v.1.len() == fin_view[idx as int].1.len());
        assert(represents(*g, fin_view, idx as int, cls));
    }
    idx
}


/// Select the cheapest representative expression for `root`'s class: the
/// fixpoint cost vector is computed, and the chosen members are expanded
/// into a fresh, tree-shaped expression. Success is owed exactly when the
/// root's class has a reachable fixpoint cost; the returned cost is that
/// fixpoint cost (unique by [`lemma_fixpoint_unique`]), and the returned
/// expression is representable by the root's class — extraction never
/// fabricates a plan. When the class is unreachable the internal-invariant
/// violation is reported instead.
pub fn extract_best(g: &EGraph, root: Id) -> (r: Result<(u64, RecExpr), PlanError>)
    requires
        g.wf(),
        (root as nat) < g.n_slots(),
    ensures
        forall|cv: Seq<u64>|
            #[trigger] cost_fixpoint(*g, cv) ==> {
                &&& (r is Ok <==> cv[g.uf@[root as int] as int] < UNREACHABLE)
                &&& (r matches Ok(p) ==> p.0 == cv[g.uf@[root as int] as int])
            },
        r is Err ==> r == Err::<(u64, RecExpr), PlanError>(PlanError::NoBestPlan),
        r matches Ok((c, e)) ==> e.wf() && e@.len() > 0 && represents(
            *g,
            e@,
            e@.len() - 1,
            g.uf@[root as int],
        ),
{
    let costs = class_costs(g);
    let rc = g.find(root);
    proof {
        assert(cost_fixpoint(*g, costs@));
        assert forall|cv: Seq<u64>| #[trigger] cost_fixpoint(*g, cv) implies cv[rc as int]
            == costs@[rc as int] by {
            lemma_fixpoint_unique(*g, costs@, cv, rc as int);
        }
    }
    if costs[rc] == UNREACHABLE {
        return Err(PlanError::NoBestPlan);
    }
    let mut out: Vec<ENode> = Vec::new();
    let idx = build_class(g, &costs, rc, &mut out);
    let total = costs[rc];
    proof {
        let view = out@.map_values(|n: ENode| nv(n));
        assert forall|i: int| 0 <= i < view.len() implies shape_ok(#[trigger] view[i], i as nat) by {
            assert(view[i] == nv(out@[i]));
        }
        assert(nodes_wf(view));
    }
    match RecExpr::build(out) {
        Ok(e) => Ok((total, e)),
        Err(_) => {
            proof {
                assert(false);
            }
            Err(PlanError::NoBestPlan)
        },
    }
}

} // verus!
