//! The rewrite-rule catalog: a closed set of (searcher, applier)
//! capability pairs.
//!
//! The engine stays agnostic to rule internals: the saturation runner only
//! asks a rule to search one immutable graph snapshot for matches, and to
//! apply a match by inserting nodes and uniting classes. Which rules a
//! stage uses is decided once, from the configuration, when the stage's
//! rule list is built.

use vstd::prelude::*;

use crate::analysis::{Config, ExprAnalysis};
use crate::egraph::{canon_ch, equiv_preserved, lemma_equiv_preserved, lemma_equiv_trans,
    lemma_memo_find_prefix, lemma_memo_find_push, lemma_memo_find_some, memo_find, memo_keys,
    EGraph};
use crate::expr::{nv, shape_ok, ENode, Id, NodeV, Op};

verus! {

/// One rewrite rule of the catalog.
#[derive(Clone, Copy, PartialEq, Eq, Structural, Debug)]
pub enum Rule {
    /// `And(a, b)` is also `And(b, a)`.
    AndCommute,
    /// `Filter(p2, Filter(p1, s))` is also `Filter(And(p1, p2), s)`.
    FilterMerge,
    /// `Filter(Equal(col, const), Scan(t))` is also `IndexScan(t, col,
    /// const)` when the catalog lists an index on that column.
    FilterToIndexScan,
    /// `Join(c, l, r)` is also `Join(c, r, l)`.
    JoinCommute,
    /// `Join(c, l, r)` is also `HashJoin(c, l, r)`.
    JoinToHashJoin,
    /// `Order(keys, s)` is also `s`, when tables are stored sorted by
    /// their primary key.
    OrderOnSorted,
}

/// One match: a rule plus the bindings its applier needs.
#[derive(Debug)]
pub enum RuleMatch {
    /// `And(a, b)` found in `class`.
    AndCommute { class: Id, a: Id, b: Id },
    /// `Filter(p2, f)` in `class` with `Filter(p1, src)` in `f`'s class.
    FilterMerge { class: Id, p1: Id, p2: Id, src: Id },
    /// A filtered scan in `class`: `tbl` is the scan's table slot, `col`
    /// and `val` the comparison's sides.
    FilterToIndexScan { class: Id, tbl: Id, col: Id, val: Id },
    /// `Join(cond, l, r)` found in `class`.
    JoinCommute { class: Id, cond: Id, l: Id, r: Id },
    /// `Join(cond, l, r)` found in `class`.
    JoinToHashJoin { class: Id, cond: Id, l: Id, r: Id },
    /// `Order(keys, child)` found in `class`.
    OrderOnSorted { class: Id, child: Id },
}

/// Every id a match binds lies inside the graph's slot arena.
pub open spec fn match_ok(m: RuleMatch, n: nat) -> bool {
    match m {
        RuleMatch::AndCommute { class, a, b } => (class as nat) < n && (a as nat) < n && (
        b as nat) < n,
        RuleMatch::FilterMerge { class, p1, p2, src } => (class as nat) < n && (p1 as nat) < n && (
        p2 as nat) < n && (src as nat) < n,
        RuleMatch::FilterToIndexScan { class, tbl, col, val } => (class as nat) < n && (tbl as nat)
            < n && (col as nat) < n && (val as nat) < n,
        RuleMatch::JoinCommute { class, cond, l, r } => (class as nat) < n && (cond as nat) < n && (
        l as nat) < n && (r as nat) < n,
        RuleMatch::JoinToHashJoin { class, cond, l, r } => (class as nat) < n && (cond as nat) < n
            && (l as nat) < n && (r as nat) < n,
        RuleMatch::OrderOnSorted { class, child } => (class as nat) < n && (child as nat) < n,
    }
}

/// Some member of class `c` is exactly the node view `v`.
pub open spec fn class_has_node(g: EGraph, c: int, v: NodeV) -> bool {
    exists|k: int| 0 <= k < g.class_nodes(c).len() && #[trigger] g.class_nodes(c)[k] == v
}

/// Some member of class `c` carries the operator `op` (payload included).
pub open spec fn class_has_op(g: EGraph, c: int, op: Op) -> bool {
    exists|k: int| 0 <= k < g.class_nodes(c).len() && (#[trigger] g.class_nodes(c)[k]).0 == op
}

/// Some member of class `c` is a constant leaf.
pub open spec fn class_has_const(g: EGraph, c: int) -> bool {
    exists|k: int|
        0 <= k < g.class_nodes(c).len() && ((#[trigger] g.class_nodes(c)[k]).0 matches Op::Constant(
            _,
        ))
}

/// Search soundness: the pattern a match reports really stands in the
/// graph (and, for the index rewrite, the catalog really lists the
/// index). `cat` is the catalog's index list.
pub open spec fn match_sound(g: EGraph, cat: Seq<(u64, u64)>, m: RuleMatch) -> bool {
    match m {
        RuleMatch::AndCommute { class, a, b } => class_has_node(
            g,
            class as int,
            (Op::And, seq![a, b]),
        ),
        RuleMatch::FilterMerge { class, p1, p2, src } => exists|f: Id|
            #![auto]
            (f as nat) < g.n_slots() && class_has_node(g, class as int, (Op::Filter, seq![p2, f]))
                && class_has_node(g, g.uf@[f as int] as int, (Op::Filter, seq![p1, src])),
        RuleMatch::FilterToIndexScan { class, tbl, col, val } => {
            &&& exists|cond: Id, src: Id|
                #![auto]
                (cond as nat) < g.n_slots() && (src as nat) < g.n_slots() && class_has_node(
                    g,
                    class as int,
                    (Op::Filter, seq![cond, src]),
                ) && class_has_node(
                    g,
                    g.uf@[cond as int] as int,
                    (Op::Equal, seq![col, val]),
                ) && (class_has_node(g, g.uf@[src as int] as int, (Op::Scan, seq![tbl]))
                    || class_has_node(g, g.uf@[src as int] as int, (Op::SeqScan, seq![tbl])))
            &&& class_has_const(g, g.uf@[val as int] as int)
            &&& exists|tid: u64, cno: u64|
                #![auto]
                class_has_op(g, g.uf@[tbl as int] as int, Op::Table(tid)) && class_has_op(
                    g,
                    g.uf@[col as int] as int,
                    Op::Column(cno),
                ) && crate::analysis::has_index_in(cat, tid, cno)
        },
        RuleMatch::JoinCommute { class, cond, l, r } => class_has_node(
            g,
            class as int,
            (Op::Join, seq![cond, l, r]),
        ),
        RuleMatch::JoinToHashJoin { class, cond, l, r } => class_has_node(
            g,
            class as int,
            (Op::Join, seq![cond, l, r]),
        ),
        RuleMatch::OrderOnSorted { class, child } => exists|keys: Id|
            #![auto]
            class_has_node(g, class as int, (Op::Order, seq![keys, child])),
    }
}

/// Sides of the first `Equal` member, in member order.
pub open spec fn first_equal_in(s: Seq<NodeV>) -> Option<(Id, Id)>
    decreases s.len(),
{
    if s.len() == 0 {
        None
    } else if s[0].0 == Op::Equal {
        Some((s[0].1[0], s[0].1[1]))
    } else {
        first_equal_in(s.drop_first())
    }
}

/// Payload of the first `Column` member, in member order.
pub open spec fn first_column_in(s: Seq<NodeV>) -> Option<u64>
    decreases s.len(),
{
    if s.len() == 0 {
        None
    } else {
        match s[0].0 {
            Op::Column(c) => Some(c),
            _ => first_column_in(s.drop_first()),
        }
    }
}

/// Payload of the first `Table` member, in member order.
pub open spec fn first_table_in(s: Seq<NodeV>) -> Option<u64>
    decreases s.len(),
{
    if s.len() == 0 {
        None
    } else {
        match s[0].0 {
            Op::Table(t) => Some(t),
            _ => first_table_in(s.drop_first()),
        }
    }
}

/// Table slot of the first `Scan` or `SeqScan` member, in member order.
pub open spec fn first_scan_in(s: Seq<NodeV>) -> Option<Id>
    decreases s.len(),
{
    if s.len() == 0 {
        None
    } else if s[0].0 == Op::Scan || s[0].0 == Op::SeqScan {
        Some(s[0].1[0])
    } else {
        first_scan_in(s.drop_first())
    }
}

/// The index-scan match the search emits at member `(s, k)`, if any: the
/// member is a filter whose condition class holds an equality (its first
/// one) of a column against a constant, whose source class holds a scan,
/// and the catalog lists an index on that column. The first-in-order
/// choices make the emitted bindings deterministic.
pub open spec fn index_match_of(g: EGraph, cat: Seq<(u64, u64)>, s: int, k: int) -> Option<
    RuleMatch,
> {
    let v = g.class_nodes(s)[k];
    if v.0 == Op::Filter {
        let cond = v.1[0];
        let src = v.1[1];
        match first_equal_in(g.class_nodes(g.uf@[cond as int] as int)) {
            Some(sides) => match first_column_in(g.class_nodes(g.uf@[sides.0 as int] as int)) {
                Some(cno) => if class_has_const(g, g.uf@[sides.1 as int] as int) {
                    match first_scan_in(g.class_nodes(g.uf@[src as int] as int)) {
                        Some(tslot) => match first_table_in(
                            g.class_nodes(g.uf@[tslot as int] as int),
                        ) {
                            Some(tid) => if crate::analysis::has_index_in(cat, tid, cno) {
                                Some(
                                    RuleMatch::FilterToIndexScan {
                                        class: s as Id,
                                        tbl: tslot,
                                        col: sides.0,
                                        val: sides.1,
                                    },
                                )
                            } else {
                                None
                            },
                            None => None,
                        },
                        None => None,
                    }
                } else {
                    None
                },
                None => None,
            },
            None => None,
        }
    } else {
        None
    }
}

/// A double filter stands at member `(s, k)` with inner member `k2`.
pub open spec fn fm_at(g: EGraph, s: int, k: int, k2: int) -> bool {
    &&& 0 <= s < g.n_slots()
    &&& 0 <= k < g.class_nodes(s).len()
    &&& g.class_nodes(s)[k].0 == Op::Filter
    &&& 0 <= k2 < g.class_nodes(g.uf@[g.class_nodes(s)[k].1[1] as int] as int).len()
    &&& g.class_nodes(g.uf@[g.class_nodes(s)[k].1[1] as int] as int)[k2].0 == Op::Filter
}

/// The filter-merge match the search emits for the double filter at
/// `(s, k, k2)`.
pub open spec fn fm_match(g: EGraph, s: int, k: int, k2: int) -> RuleMatch {
    let v = g.class_nodes(s)[k];
    let w = g.class_nodes(g.uf@[v.1[1] as int] as int)[k2];
    RuleMatch::FilterMerge { class: s as Id, p1: w.1[0], p2: v.1[0], src: w.1[1] }
}

/// Scan position `(p, q)` lies strictly before position `(s, k)`.
pub open spec fn before(p: int, q: int, s: int, k: int) -> bool {
    p < s || (p == s && q < k)
}

/// Completeness bound of an in-progress search: every pattern of the rule
/// standing strictly before scan position `(s, k)` already has its match
/// in `found`.
pub open spec fn complete_upto(
    g: EGraph,
    cat: Seq<(u64, u64)>,
    rule: Rule,
    found: Seq<RuleMatch>,
    s: int,
    k: int,
) -> bool {
    match rule {
        Rule::AndCommute => forall|p: int, q: int|
            0 <= p < g.n_slots() && 0 <= q < g.class_nodes(p).len() && before(p, q, s, k) && (
            #[trigger] g.class_nodes(p)[q]).0 == Op::And ==> found.contains(
                RuleMatch::AndCommute {
                    class: p as Id,
                    a: g.class_nodes(p)[q].1[0],
                    b: g.class_nodes(p)[q].1[1],
                },
            ),
        Rule::FilterMerge => forall|p: int, q: int, q2: int|
            before(p, q, s, k) && #[trigger] fm_at(g, p, q, q2) ==> found.contains(
                fm_match(g, p, q, q2),
            ),
        Rule::FilterToIndexScan => forall|p: int, q: int|
            0 <= p < g.n_slots() && 0 <= q < g.class_nodes(p).len() && before(p, q, s, k) ==> (
            #[trigger] index_match_of(g, cat, p, q) matches Some(m) ==> found.contains(m)),
        Rule::JoinCommute => forall|p: int, q: int|
            0 <= p < g.n_slots() && 0 <= q < g.class_nodes(p).len() && before(p, q, s, k) && (
            #[trigger] g.class_nodes(p)[q]).0 == Op::Join ==> found.contains(
                RuleMatch::JoinCommute {
                    class: p as Id,
                    cond: g.class_nodes(p)[q].1[0],
                    l: g.class_nodes(p)[q].1[1],
                    r: g.class_nodes(p)[q].1[2],
                },
            ),
        Rule::JoinToHashJoin => forall|p: int, q: int|
            0 <= p < g.n_slots() && 0 <= q < g.class_nodes(p).len() && before(p, q, s, k) && (
            #[trigger] g.class_nodes(p)[q]).0 == Op::Join ==> found.contains(
                RuleMatch::JoinToHashJoin {
                    class: p as Id,
                    cond: g.class_nodes(p)[q].1[0],
                    l: g.class_nodes(p)[q].1[1],
                    r: g.class_nodes(p)[q].1[2],
                },
            ),
        Rule::OrderOnSorted => forall|p: int, q: int|
            0 <= p < g.n_slots() && 0 <= q < g.class_nodes(p).len() && before(p, q, s, k) && (
            #[trigger] g.class_nodes(p)[q]).0 == Op::Order ==> found.contains(
                RuleMatch::OrderOnSorted { class: p as Id, child: g.class_nodes(p)[q].1[1] },
            ),
    }
}

/// Search completeness: every standing pattern of the rule has its match
/// in `found`.
pub open spec fn search_complete(
    g: EGraph,
    cat: Seq<(u64, u64)>,
    rule: Rule,
    found: Seq<RuleMatch>,
) -> bool {
    complete_upto(g, cat, rule, found, g.n_slots() as int, 0)
}

/// An element stays found when the sequence grows at the back.
pub proof fn lemma_contains_push<A>(s: Seq<A>, x: A, y: A)
    requires
        s.contains(y),
    ensures
        s.push(x).contains(y),
{
    let i = choose|i: int| 0 <= i < s.len() && s[i] == y;
    assert(s.push(x)[i] == y);
}

/// An element of either part is an element of the concatenation.
pub proof fn lemma_contains_concat<A>(s1: Seq<A>, s2: Seq<A>, y: A)
    requires
        s1.contains(y) || s2.contains(y),
    ensures
        (s1 + s2).contains(y),
{
    if s1.contains(y) {
        let i = choose|i: int| 0 <= i < s1.len() && s1[i] == y;
        assert((s1 + s2)[i] == y);
    } else {
        let i = choose|i: int| 0 <= i < s2.len() && s2[i] == y;
        assert((s1 + s2)[s1.len() + i] == y);
    }
}

/// A completeness bound carries over to any sequence holding at least the
/// same matches.
pub proof fn lemma_complete_mono(
    g: EGraph,
    cat: Seq<(u64, u64)>,
    rule: Rule,
    f1: Seq<RuleMatch>,
    f2: Seq<RuleMatch>,
    s: int,
    k: int,
)
    requires
        complete_upto(g, cat, rule, f1, s, k),
        forall|y: RuleMatch| f1.contains(y) ==> #[trigger] f2.contains(y),
    ensures
        complete_upto(g, cat, rule, f2, s, k),
{
}

/// A match whose bindings fit a small arena fits a larger one.
pub proof fn lemma_match_ok_mono(m: RuleMatch, n1: nat, n2: nat)
    requires
        match_ok(m, n1),
        n1 <= n2,
    ensures
        match_ok(m, n2),
{
}

/// Two graphs with the same union-find entries and the same class arena
/// show the same member nodes and constants everywhere.
pub proof fn lemma_same_view(a: EGraph, b: EGraph)
    requires
        b.uf@ == a.uf@,
        b.classes@ == a.classes@,
    ensures
        b.n_slots() == a.n_slots(),
        forall|x: int| #[trigger] b.class_nodes(x) == a.class_nodes(x),
        forall|x: int| #[trigger] class_has_const(b, x) == class_has_const(a, x),
{
    assert forall|x: int| #[trigger] b.class_nodes(x) == a.class_nodes(x) by {
        assert(b.classes@[x] == a.classes@[x]);
    }
    assert forall|x: int| #[trigger] class_has_const(b, x) == class_has_const(a, x) by {
        assert(b.class_nodes(x) == a.class_nodes(x));
        if class_has_const(b, x) {
            let k = choose|k: int|
                0 <= k < b.class_nodes(x).len() && ((#[trigger] b.class_nodes(x)[k]).0
                    matches Op::Constant(_));
            assert(a.class_nodes(x)[k].0 matches Op::Constant(_));
        }
        if class_has_const(a, x) {
            let k = choose|k: int|
                0 <= k < a.class_nodes(x).len() && ((#[trigger] a.class_nodes(x)[k]).0
                    matches Op::Constant(_));
            assert(b.class_nodes(x)[k].0 matches Op::Constant(_));
        }
    }
}

/// The emitted index-scan match is the same in two graphs with the same
/// union-find entries and class arena.
pub proof fn lemma_index_match_same(a: EGraph, b: EGraph, cat: Seq<(u64, u64)>, p: int, q: int)
    requires
        b.uf@ == a.uf@,
        b.classes@ == a.classes@,
    ensures
        index_match_of(b, cat, p, q) == index_match_of(a, cat, p, q),
{
    lemma_same_view(a, b);
}

/// The first stage's rule set, as a value contracts can name.
pub open spec fn spec_stage1_rules() -> Seq<Rule> {
    seq![Rule::AndCommute, Rule::FilterMerge]
}

/// The second stage's rule set under a configuration.
pub open spec fn spec_stage2_rules(config: Config) -> Seq<Rule> {
    if config.enable_range_filter_scan {
        seq![Rule::AndCommute, Rule::FilterMerge, Rule::FilterToIndexScan]
    } else {
        seq![Rule::AndCommute, Rule::FilterMerge]
    }
}

/// The third stage's rule set under a configuration.
pub open spec fn spec_stage3_rules(config: Config) -> Seq<Rule> {
    if config.table_is_sorted_by_primary_key {
        seq![
            Rule::AndCommute,
            Rule::FilterMerge,
            Rule::JoinCommute,
            Rule::JoinToHashJoin,
            Rule::OrderOnSorted,
        ]
    } else {
        seq![Rule::AndCommute, Rule::FilterMerge, Rule::JoinCommute, Rule::JoinToHashJoin]
    }
}

/// Rules of the first stage: scalar normalization and filter fusion,
/// preparing nested predicates for pushdown.
pub fn stage1_rules() -> (r: Vec<Rule>)
    ensures
        r@ == seq![Rule::AndCommute, Rule::FilterMerge],
{
    let mut r: Vec<Rule> = Vec::new();
    r.push(Rule::AndCommute);
    r.push(Rule::FilterMerge);
    proof {
        assert(r@ =~= seq![Rule::AndCommute, Rule::FilterMerge]);
    }
    r
}

/// Rules of the second stage: predicate fusion toward the scans, plus the
/// index-scan rewrite when the configuration enables it.
pub fn stage2_rules(config: &Config) -> (r: Vec<Rule>)
    ensures
        config.enable_range_filter_scan ==> r@ == seq![
            Rule::AndCommute,
            Rule::FilterMerge,
            Rule::FilterToIndexScan,
        ],
        !config.enable_range_filter_scan ==> r@ == seq![Rule::AndCommute, Rule::FilterMerge],
    {
    let mut r: Vec<Rule> = Vec::new();
    r.push(Rule::AndCommute);
    r.push(Rule::FilterMerge);
    if config.enable_range_filter_scan {
        r.push(Rule::FilterToIndexScan);
        proof {
            assert(r@ =~= seq![Rule::AndCommute, Rule::FilterMerge, Rule::FilterToIndexScan]);
        }
    } else {
        proof {
            assert(r@ =~= seq![Rule::AndCommute, Rule::FilterMerge]);
        }
    }
    r
}

/// Rules of the third stage: join order and algorithm selection, filter
/// fusion, and ordering elimination when base order is trusted.
pub fn stage3_rules(config: &Config) -> (r: Vec<Rule>)
    ensures
        config.table_is_sorted_by_primary_key ==> r@ == seq![
            Rule::AndCommute,
            Rule::FilterMerge,
            Rule::JoinCommute,
            Rule::JoinToHashJoin,
            Rule::OrderOnSorted,
        ],
        !config.table_is_sorted_by_primary_key ==> r@ == seq![
            Rule::AndCommute,
            Rule::FilterMerge,
            Rule::JoinCommute,
            Rule::JoinToHashJoin,
        ],
{
    let mut r: Vec<Rule> = Vec::new();
    r.push(Rule::AndCommute);
    r.push(Rule::FilterMerge);
    r.push(Rule::JoinCommute);
    r.push(Rule::JoinToHashJoin);
    if config.table_is_sorted_by_primary_key {
        r.push(Rule::OrderOnSorted);
        proof {
            assert(r@ =~= seq![
                Rule::AndCommute,
                Rule::FilterMerge,
                Rule::JoinCommute,
                Rule::JoinToHashJoin,
                Rule::OrderOnSorted,
            ]);
        }
    } else {
        proof {
            assert(r@ =~= seq![
                Rule::AndCommute,
                Rule::FilterMerge,
                Rule::JoinCommute,
                Rule::JoinToHashJoin,
            ]);
        }
    }
    r
}

/// Payload of the first `Table` leaf in the class of `cls`, if any.
fn class_first_table(g: &EGraph, cls: Id) -> (r: Option<u64>)
    requires
        g.wf(),
        (cls as nat) < g.n_slots(),
    ensures
        r == first_table_in(g.class_nodes(g.uf@[cls as int] as int)),
        r matches Some(t) ==> class_has_op(*g, g.uf@[cls as int] as int, Op::Table(t)),
{
    let c = g.find(cls);
    let ghost cn = g.class_nodes(c as int);
    let m = g.classes[c].nodes.len();
    let mut k: usize = 0;
    proof {
        assert(cn.skip(0) =~= cn);
    }
    while k < m
        invariant
            g.wf(),
            (c as nat) < g.n_slots(),
            c == g.uf@[cls as int],
            cn == g.class_nodes(c as int),
            m == g.classes@[c as int].nodes@.len(),
            k <= m,
            first_table_in(cn.skip(k as int)) == first_table_in(cn),
        decreases m - k,
    {
        proof {
            assert(cn.skip(k as int)[0] == cn[k as int]);
            assert(cn.skip(k as int).drop_first() =~= cn.skip(k as int + 1));
        }
        match g.classes[c].nodes[k].op {
            Op::Table(t) => {
                proof {
                    assert(g.class_nodes(c as int)[k as int].0 == Op::Table(t));
                }
                return Some(t);
            },
            _ => {},
        }
        k = k + 1;
    }
    proof {
        assert(cn.skip(m as int).len() == 0);
    }
    None
}

/// Payload of the first `Column` leaf in the class of `cls`, if any.
fn class_first_column(g: &EGraph, cls: Id) -> (r: Option<u64>)
    requires
        g.wf(),
        (cls as nat) < g.n_slots(),
    ensures
        r == first_column_in(g.class_nodes(g.uf@[cls as int] as int)),
        r matches Some(cn) ==> class_has_op(*g, g.uf@[cls as int] as int, Op::Column(cn)),
{
    let c = g.find(cls);
    let ghost cn = g.class_nodes(c as int);
    let m = g.classes[c].nodes.len();
    let mut k: usize = 0;
    proof {
        assert(cn.skip(0) =~= cn);
    }
    while k < m
        invariant
            g.wf(),
            (c as nat) < g.n_slots(),
            c == g.uf@[cls as int],
            cn == g.class_nodes(c as int),
            m == g.classes@[c as int].nodes@.len(),
            k <= m,
            first_column_in(cn.skip(k as int)) == first_column_in(cn),
        decreases m - k,
    {
        proof {
            assert(cn.skip(k as int)[0] == cn[k as int]);
            assert(cn.skip(k as int).drop_first() =~= cn.skip(k as int + 1));
        }
        match g.classes[c].nodes[k].op {
            Op::Column(t) => {
                proof {
                    assert(g.class_nodes(c as int)[k as int].0 == Op::Column(t));
                }
                return Some(t);
            },
            _ => {},
        }
        k = k + 1;
    }
    proof {
        assert(cn.skip(m as int).len() == 0);
    }
    None
}

/// Whether the class of `cls` holds a `Constant` leaf.
fn class_has_constant(g: &EGraph, cls: Id) -> (r: bool)
    requires
        g.wf(),
        (cls as nat) < g.n_slots(),
    ensures
        r == class_has_const(*g, g.uf@[cls as int] as int),
{
    let c = g.find(cls);
    let m = g.classes[c].nodes.len();
    let mut k: usize = 0;
    while k < m
        invariant
            g.wf(),
            (c as nat) < g.n_slots(),
            c == g.uf@[cls as int],
            m == g.classes@[c as int].nodes@.len(),
            k <= m,
            forall|kk: int|
                0 <= kk < k ==> !((#[trigger] g.class_nodes(c as int)[kk]).0 matches Op::Constant(
                    _,
                )),
        decreases m - k,
    {
        match g.classes[c].nodes[k].op {
            Op::Constant(_) => {
                proof {
                    assert(g.class_nodes(c as int)[k as int].0 matches Op::Constant(_));
                }
                return true;
            },
            _ => {
                proof {
                    assert(!(g.class_nodes(c as int)[k as int].0 matches Op::Constant(_)));
                }
            },
        }
        k = k + 1;
    }
    false
}

/// The table slot of the first `Scan` or `SeqScan` in the class of `cls`.
fn class_first_scan(g: &EGraph, cls: Id) -> (r: Option<Id>)
    requires
        g.wf(),
        (cls as nat) < g.n_slots(),
    ensures
        r == first_scan_in(g.class_nodes(g.uf@[cls as int] as int)),
        r matches Some(t) ==> (t as nat) < g.n_slots() && (class_has_node(
            *g,
            g.uf@[cls as int] as int,
            (Op::Scan, seq![t]),
        ) || class_has_node(*g, g.uf@[cls as int] as int, (Op::SeqScan, seq![t]))),
{
    let c = g.find(cls);
    let ghost cn = g.class_nodes(c as int);
    let m = g.classes[c].nodes.len();
    let mut k: usize = 0;
    proof {
        assert(cn.skip(0) =~= cn);
    }
    while k < m
        invariant
            g.wf(),
            (c as nat) < g.n_slots(),
            c == g.uf@[cls as int],
            cn == g.class_nodes(c as int),
            m == g.classes@[c as int].nodes@.len(),
            k <= m,
            first_scan_in(cn.skip(k as int)) == first_scan_in(cn),
        decreases m - k,
    {
        proof {
            assert(cn.skip(k as int)[0] == cn[k as int]);
            assert(cn.skip(k as int).drop_first() =~= cn.skip(k as int + 1));
        }
        let node = &g.classes[c].nodes[k];
        proof {
            assert(shape_ok(nv(g.classes@[c as int].nodes@[k as int]), g.n_slots()));
        }
        match node.op {
            Op::Scan => {
                proof {
                    assert(node.children@ =~= seq![node.children@[0]]);
                    assert(g.class_nodes(c as int)[k as int] == (
                        Op::Scan,
                        seq![node.children@[0]],
                    ));
                }
                return Some(node.children[0]);
            },
            Op::SeqScan => {
                proof {
                    assert(node.children@ =~= seq![node.children@[0]]);
                    assert(g.class_nodes(c as int)[k as int] == (
                        Op::SeqScan,
                        seq![node.children@[0]],
                    ));
                }
                return Some(node.children[0]);
            },
            _ => {},
        }
        k = k + 1;
    }
    proof {
        assert(cn.skip(m as int).len() == 0);
    }
    None
}

/// The two sides of the first `Equal` in the class of `cls`.
fn class_first_equal(g: &EGraph, cls: Id) -> (r: Option<(Id, Id)>)
    requires
        g.wf(),
        (cls as nat) < g.n_slots(),
    ensures
        r == first_equal_in(g.class_nodes(g.uf@[cls as int] as int)),
        r matches Some(p) ==> (p.0 as nat) < g.n_slots() && (p.1 as nat) < g.n_slots()
            && class_has_node(*g, g.uf@[cls as int] as int, (Op::Equal, seq![p.0, p.1])),
{
    let c = g.find(cls);
    let ghost cn = g.class_nodes(c as int);
    let m = g.classes[c].nodes.len();
    let mut k: usize = 0;
    proof {
        assert(cn.skip(0) =~= cn);
    }
    while k < m
        invariant
            g.wf(),
            (c as nat) < g.n_slots(),
            c == g.uf@[cls as int],
            cn == g.class_nodes(c as int),
            m == g.classes@[c as int].nodes@.len(),
            k <= m,
            first_equal_in(cn.skip(k as int)) == first_equal_in(cn),
        decreases m - k,
    {
        proof {
            assert(cn.skip(k as int)[0] == cn[k as int]);
            assert(cn.skip(k as int).drop_first() =~= cn.skip(k as int + 1));
        }
        let node = &g.classes[c].nodes[k];
        proof {
            assert(shape_ok(nv(g.classes@[c as int].nodes@[k as int]), g.n_slots()));
        }
        match node.op {
            Op::Equal => {
                proof {
                    assert(node.children@ =~= seq![node.children@[0], node.children@[1]]);
                    assert(g.class_nodes(c as int)[k as int] == (
                        Op::Equal,
                        seq![node.children@[0], node.children@[1]],
                    ));
                }
                return Some((node.children[0], node.children[1]));
            },
            _ => {},
        }
        k = k + 1;
    }
    proof {
        assert(cn.skip(m as int).len() == 0);
    }
    None
}

/// Search one rule against an immutable graph snapshot, in slot and
/// member order. Sound: every binding of every match is a valid slot and
/// its pattern really stands in the graph. Complete: every standing
/// pattern of the rule yields its match in the result.
pub fn search_rule(g: &EGraph, anal: &ExprAnalysis, rule: Rule) -> (r: Vec<RuleMatch>)
    requires
        g.wf(),
    ensures
        forall|k: int| 0 <= k < r@.len() ==> match_ok(#[trigger] r@[k], g.n_slots()),
        forall|k: int| 0 <= k < r@.len() ==> match_sound(
            *g,
            anal.catalog.indexes@,
            #[trigger] r@[k],
        ),
        search_complete(*g, anal.catalog.indexes@, rule, r@),
{
    let ghost cat = anal.catalog.indexes@;
    let mut out: Vec<RuleMatch> = Vec::new();
    let n = g.len();
    let mut s: usize = 0;
    while s < n
        invariant
            g.wf(),
            cat == anal.catalog.indexes@,
            n == g.n_slots(),
            s <= n,
            forall|k: int| 0 <= k < out@.len() ==> match_ok(#[trigger] out@[k], g.n_slots()),
            forall|k: int| 0 <= k < out@.len() ==> match_sound(
                *g,
                anal.catalog.indexes@,
                #[trigger] out@[k],
            ),
            complete_upto(*g, cat, rule, out@, s as int, 0),
        decreases n - s,
    {
        let m = g.classes[s].nodes.len();
        let mut k: usize = 0;
        while k < m
            invariant
                g.wf(),
                cat == anal.catalog.indexes@,
                n == g.n_slots(),
                s < n,
                m == g.classes@[s as int].nodes@.len(),
                k <= m,
                forall|q: int| 0 <= q < out@.len() ==> match_ok(#[trigger] out@[q], g.n_slots()),
                forall|q: int| 0 <= q < out@.len() ==> match_sound(
                    *g,
                    anal.catalog.indexes@,
                    #[trigger] out@[q],
                ),
                complete_upto(*g, cat, rule, out@, s as int, k as int),
            decreases m - k,
        {
            let node = &g.classes[s].nodes[k];
            proof {
                assert(shape_ok(nv(g.classes@[s as int].nodes@[k as int]), g.n_slots()));
                assert(g.class_nodes(s as int)[k as int] == nv(*node));
            }
            match rule {
                Rule::AndCommute => {
                    if node.op == Op::And {
                        let ghost mv = RuleMatch::AndCommute {
                            class: s as Id,
                            a: node.children@[0],
                            b: node.children@[1],
                        };
                        proof {
                            assert(node.children@ =~= seq![node.children@[0], node.children@[1]]);
                            assert(g.class_nodes(s as int)[k as int] == (
                                Op::And,
                                seq![node.children@[0], node.children@[1]],
                            ));
                            assert(match_sound(*g, anal.catalog.indexes@, mv));
                        }
                        let ghost pre = out@;
                        out.push(
                            RuleMatch::AndCommute {
                                class: s,
                                a: node.children[0],
                                b: node.children[1],
                            },
                        );
                        proof {
                            assert forall|y: RuleMatch| pre.contains(y) implies out@.contains(
                                y,
                            ) by {
                                lemma_contains_push(pre, mv, y);
                            }
                            lemma_complete_mono(*g, cat, rule, pre, out@, s as int, k as int);
                            assert(out@[out@.len() - 1] == mv);
                            assert(out@.contains(mv));
                        }
                    }
                    proof {
                        assert(complete_upto(*g, cat, rule, out@, s as int, k as int + 1)) by {
                            assert forall|p: int, q: int|
                                0 <= p < g.n_slots() && 0 <= q < g.class_nodes(p).len() && before(
                                    p,
                                    q,
                                    s as int,
                                    k as int + 1,
                                ) && (#[trigger] g.class_nodes(p)[q]).0 == Op::And implies
                                out@.contains(
                                RuleMatch::AndCommute {
                                    class: p as Id,
                                    a: g.class_nodes(p)[q].1[0],
                                    b: g.class_nodes(p)[q].1[1],
                                },
                            ) by {
                                if !before(p, q, s as int, k as int) {
                                    assert(p == s as int && q == k as int);
                                    assert(g.class_nodes(p)[q].1[0] == node.children@[0]);
                                    assert(g.class_nodes(p)[q].1[1] == node.children@[1]);
                                }
                            }
                        }
                    }
                },
                Rule::FilterMerge => {
                    if node.op == Op::Filter {
                        let p2 = node.children[0];
                        let ghost fc = node.children@[1];
                        let f = g.find(node.children[1]);
                        proof {
                            assert(node.children@ =~= seq![p2, fc]);
                            assert(g.class_nodes(s as int)[k as int] == (
                                Op::Filter,
                                seq![p2, fc],
                            ));
                        }
                        let m2 = g.classes[f].nodes.len();
                        let mut k2: usize = 0;
                        while k2 < m2
                            invariant
                                g.wf(),
                                cat == anal.catalog.indexes@,
                                n == g.n_slots(),
                                s < n,
                                k < g.class_nodes(s as int).len(),
                                rule == Rule::FilterMerge,
                                (p2 as nat) < n,
                                (fc as nat) < n,
                                (f as nat) < n,
                                f == g.uf@[fc as int],
                                g.class_nodes(s as int)[k as int] == (Op::Filter, seq![p2, fc]),
                                m2 == g.classes@[f as int].nodes@.len(),
                                k2 <= m2,
                                forall|q: int|
                                    0 <= q < out@.len() ==> match_ok(
                                        #[trigger] out@[q],
                                        g.n_slots(),
                                    ),
                                forall|q: int|
                                    0 <= q < out@.len() ==> match_sound(
                                        *g,
                                        anal.catalog.indexes@,
                                        #[trigger] out@[q],
                                    ),
                                complete_upto(*g, cat, rule, out@, s as int, k as int),
                                forall|q2: int|
                                    0 <= q2 < k2 && #[trigger] fm_at(*g, s as int, k as int, q2)
                                        ==> out@.contains(fm_match(*g, s as int, k as int, q2)),
                            decreases m2 - k2,
                        {
                            let inner = &g.classes[f].nodes[k2];
                            proof {
                                assert(shape_ok(
                                    nv(g.classes@[f as int].nodes@[k2 as int]),
                                    g.n_slots(),
                                ));
                                assert(g.class_nodes(f as int)[k2 as int] == nv(*inner));
                            }
                            if inner.op == Op::Filter {
                                let ghost mv = RuleMatch::FilterMerge {
                                    class: s as Id,
                                    p1: inner.children@[0],
                                    p2: p2,
                                    src: inner.children@[1],
                                };
                                proof {
                                    assert(inner.children@ =~= seq![
                                        inner.children@[0],
                                        inner.children@[1],
                                    ]);
                                    assert(g.class_nodes(f as int)[k2 as int] == (
                                        Op::Filter,
                                        seq![inner.children@[0], inner.children@[1]],
                                    ));
                                    assert(g.class_nodes(g.uf@[fc as int] as int)[k2 as int] == (
                                        Op::Filter,
                                        seq![inner.children@[0], inner.children@[1]],
                                    ));
                                    assert(match_sound(*g, anal.catalog.indexes@, mv));
                                    assert(fm_match(*g, s as int, k as int, k2 as int) == mv);
                                }
                                let ghost pre = out@;
                                out.push(
                                    RuleMatch::FilterMerge {
                                        class: s,
                                        p1: inner.children[0],
                                        p2,
                                        src: inner.children[1],
                                    },
                                );
                                proof {
                                    assert forall|y: RuleMatch| pre.contains(y) implies
                                        out@.contains(y) by {
                                        lemma_contains_push(pre, mv, y);
                                    }
                                    lemma_complete_mono(
                                        *g,
                                        cat,
                                        rule,
                                        pre,
                                        out@,
                                        s as int,
                                        k as int,
                                    );
                                    assert(out@[out@.len() - 1] == mv);
                                    assert(out@.contains(mv));
                                }
                            } else {
                                proof {
                                    assert(!fm_at(*g, s as int, k as int, k2 as int));
                                }
                            }
                            k2 = k2 + 1;
                        }
                        proof {
                            assert forall|q2: int|
                                #[trigger] fm_at(*g, s as int, k as int, q2) implies out@.contains(
                                fm_match(*g, s as int, k as int, q2),
                            ) by {
                                assert(0 <= q2 < m2);
                            }
                        }
                    } else {
                        proof {
                            assert forall|q2: int|
                                #[trigger] fm_at(*g, s as int, k as int, q2) implies out@.contains(
                                fm_match(*g, s as int, k as int, q2),
                            ) by {
                                assert(g.class_nodes(s as int)[k as int].0 != Op::Filter);
                            }
                        }
                    }
                    proof {
                        assert(complete_upto(*g, cat, rule, out@, s as int, k as int + 1)) by {
                            assert forall|p: int, q: int, q2: int|
                                before(p, q, s as int, k as int + 1) && #[trigger] fm_at(
                                    *g,
                                    p,
                                    q,
                                    q2,
                                ) implies out@.contains(fm_match(*g, p, q, q2)) by {
                                if !before(p, q, s as int, k as int) {
                                    assert(p == s as int && q == k as int);
                                }
                            }
                        }
                    }
                },
                Rule::FilterToIndexScan => {
                    if node.op == Op::Filter {
                        let cond = node.children[0];
                        let src = node.children[1];
                        proof {
                            assert(node.children@ =~= seq![cond, src]);
                            assert(g.class_nodes(s as int)[k as int] == (
                                Op::Filter,
                                seq![cond, src],
                            ));
                        }
                        let eqr = class_first_equal(g, cond);
                        match eqr {
                            Some(sides) => {
                                let colr = class_first_column(g, sides.0);
                                match colr {
                                    Some(col_no) => {
                                        let hasc = class_has_constant(g, sides.1);
                                        if hasc {
                                            let scanr = class_first_scan(g, src);
                                            match scanr {
                                                Some(tbl_slot) => {
                                                    let tabr = class_first_table(g, tbl_slot);
                                                    match tabr {
                                                        Some(tid) => {
                                                            let hasi = anal.catalog.has_index(
                                                                tid,
                                                                col_no,
                                                            );
                                                            if hasi {
                                                                let ghost mv =
                                                                    RuleMatch::FilterToIndexScan {
                                                                    class: s as Id,
                                                                    tbl: tbl_slot,
                                                                    col: sides.0,
                                                                    val: sides.1,
                                                                };
                                                                proof {
                                                                    assert(match_sound(
                                                                        *g,
                                                                        anal.catalog.indexes@,
                                                                        mv,
                                                                    ));
                                                                    assert(index_match_of(
                                                                        *g,
                                                                        cat,
                                                                        s as int,
                                                                        k as int,
                                                                    ) == Some(mv));
                                                                }
                                                                let ghost pre = out@;
                                                                out.push(
                                                                    RuleMatch::FilterToIndexScan {
                                                                        class: s,
                                                                        tbl: tbl_slot,
                                                                        col: sides.0,
                                                                        val: sides.1,
                                                                    },
                                                                );
                                                                proof {
                                                                    assert forall|y: RuleMatch|
                                                                        pre.contains(y) implies
                                                                        out@.contains(y) by {
                                                                        lemma_contains_push(
                                                                            pre,
                                                                            mv,
                                                                            y,
                                                                        );
                                                                    }
                                                                    lemma_complete_mono(
                                                                        *g,
                                                                        cat,
                                                                        rule,
                                                                        pre,
                                                                        out@,
                                                                        s as int,
                                                                        k as int,
                                                                    );
                                                                    assert(out@[out@.len() - 1]
                                                                        == mv);
                                                                    assert(out@.contains(mv));
                                                                }
                                                            } else {
                                                                proof {
                                                                    assert(index_match_of(
                                                                        *g,
                                                                        cat,
                                                                        s as int,
                                                                        k as int,
                                                                    ) is None);
                                                                }
                                                            }
                                                        },
                                                        None => {
                                                            proof {
                                                                assert(index_match_of(
                                                                    *g,
                                                                    cat,
                                                                    s as int,
                                                                    k as int,
                                                                ) is None);
                                                            }
                                                        },
                                                    }
                                                },
                                                None => {
                                                    proof {
                                                        assert(index_match_of(
                                                            *g,
                                                            cat,
                                                            s as int,
                                                            k as int,
                                                        ) is None);
                                                    }
                                                },
                                            }
                                        } else {
                                            proof {
                                                assert(index_match_of(
                                                    *g,
                                                    cat,
                                                    s as int,
                                                    k as int,
                                                ) is None);
                                            }
                                        }
                                    },
                                    None => {
                                        proof {
                                            assert(index_match_of(*g, cat, s as int, k as int)
                                                is None);
                                        }
                                    },
                                }
                            },
                            None => {
                                proof {
                                    assert(index_match_of(*g, cat, s as int, k as int) is None);
                                }
                            },
                        }
                    } else {
                        proof {
                            assert(index_match_of(*g, cat, s as int, k as int) is None);
                        }
                    }
                    proof {
                        assert(complete_upto(*g, cat, rule, out@, s as int, k as int + 1)) by {
                            assert forall|p: int, q: int|
                                0 <= p < g.n_slots() && 0 <= q < g.class_nodes(p).len() && before(
                                    p,
                                    q,
                                    s as int,
                                    k as int + 1,
                                ) implies (#[trigger] index_match_of(*g, cat, p, q) matches Some(
                                mm,
                            ) ==> out@.contains(mm)) by {
                                if !before(p, q, s as int, k as int) {
                                    assert(p == s as int && q == k as int);
                                }
                            }
                        }
                    }
                },
                Rule::JoinCommute => {
                    if node.op == Op::Join {
                        let ghost mv = RuleMatch::JoinCommute {
                            class: s as Id,
                            cond: node.children@[0],
                            l: node.children@[1],
                            r: node.children@[2],
                        };
                        proof {
                            assert(node.children@ =~= seq![
                                node.children@[0],
                                node.children@[1],
                                node.children@[2],
                            ]);
                            assert(g.class_nodes(s as int)[k as int] == (
                                Op::Join,
                                seq![node.children@[0], node.children@[1], node.children@[2]],
                            ));
                            assert(match_sound(*g, anal.catalog.indexes@, mv));
                        }
                        let ghost pre = out@;
                        out.push(
                            RuleMatch::JoinCommute {
                                class: s,
                                cond: node.children[0],
                                l: node.children[1],
                                r: node.children[2],
                            },
                        );
                        proof {
                            assert forall|y: RuleMatch| pre.contains(y) implies out@.contains(
                                y,
                            ) by {
                                lemma_contains_push(pre, mv, y);
                            }
                            lemma_complete_mono(*g, cat, rule, pre, out@, s as int, k as int);
                            assert(out@[out@.len() - 1] == mv);
                            assert(out@.contains(mv));
                        }
                    }
                    proof {
                        assert(complete_upto(*g, cat, rule, out@, s as int, k as int + 1)) by {
                            assert forall|p: int, q: int|
                                0 <= p < g.n_slots() && 0 <= q < g.class_nodes(p).len() && before(
                                    p,
                                    q,
                                    s as int,
                                    k as int + 1,
                                ) && (#[trigger] g.class_nodes(p)[q]).0 == Op::Join implies
                                out@.contains(
                                RuleMatch::JoinCommute {
                                    class: p as Id,
                                    cond: g.class_nodes(p)[q].1[0],
                                    l: g.class_nodes(p)[q].1[1],
                                    r: g.class_nodes(p)[q].1[2],
                                },
                            ) by {
                                if !before(p, q, s as int, k as int) {
                                    assert(p == s as int && q == k as int);
                                }
                            }
                        }
                    }
                },
                Rule::JoinToHashJoin => {
                    if node.op == Op::Join {
                        let ghost mv = RuleMatch::JoinToHashJoin {
                            class: s as Id,
                            cond: node.children@[0],
                            l: node.children@[1],
                            r: node.children@[2],
                        };
                        proof {
                            assert(node.children@ =~= seq![
                                node.children@[0],
                                node.children@[1],
                                node.children@[2],
                            ]);
                            assert(g.class_nodes(s as int)[k as int] == (
                                Op::Join,
                                seq![node.children@[0], node.children@[1], node.children@[2]],
                            ));
                            assert(match_sound(*g, anal.catalog.indexes@, mv));
                        }
                        let ghost pre = out@;
                        out.push(
                            RuleMatch::JoinToHashJoin {
                                class: s,
                                cond: node.children[0],
                                l: node.children[1],
                                r: node.children[2],
                            },
                        );
                        proof {
                            assert forall|y: RuleMatch| pre.contains(y) implies out@.contains(
                                y,
                            ) by {
                                lemma_contains_push(pre, mv, y);
                            }
                            lemma_complete_mono(*g, cat, rule, pre, out@, s as int, k as int);
                            assert(out@[out@.len() - 1] == mv);
                            assert(out@.contains(mv));
                        }
                    }
                    proof {
                        assert(complete_upto(*g, cat, rule, out@, s as int, k as int + 1)) by {
                            assert forall|p: int, q: int|
                                0 <= p < g.n_slots() && 0 <= q < g.class_nodes(p).len() && before(
                                    p,
                                    q,
                                    s as int,
                                    k as int + 1,
                                ) && (#[trigger] g.class_nodes(p)[q]).0 == Op::Join implies
                                out@.contains(
                                RuleMatch::JoinToHashJoin {
                                    class: p as Id,
                                    cond: g.class_nodes(p)[q].1[0],
                                    l: g.class_nodes(p)[q].1[1],
                                    r: g.class_nodes(p)[q].1[2],
                                },
                            ) by {
                                if !before(p, q, s as int, k as int) {
                                    assert(p == s as int && q == k as int);
                                }
                            }
                        }
                    }
                },
                Rule::OrderOnSorted => {
                    if node.op == Op::Order {
                        let ghost mv = RuleMatch::OrderOnSorted {
                            class: s as Id,
                            child: node.children@[1],
                        };
                        proof {
                            assert(node.children@ =~= seq![node.children@[0], node.children@[1]]);
                            assert(g.class_nodes(s as int)[k as int] == (
                                Op::Order,
                                seq![node.children@[0], node.children@[1]],
                            ));
                            assert(match_sound(*g, anal.catalog.indexes@, mv));
                        }
                        let ghost pre = out@;
                        out.push(
                            RuleMatch::OrderOnSorted { class: s, child: node.children[1] },
                        );
                        proof {
                            assert forall|y: RuleMatch| pre.contains(y) implies out@.contains(
                                y,
                            ) by {
                                lemma_contains_push(pre, mv, y);
                            }
                            lemma_complete_mono(*g, cat, rule, pre, out@, s as int, k as int);
                            assert(out@[out@.len() - 1] == mv);
                            assert(out@.contains(mv));
                        }
                    }
                    proof {
                        assert(complete_upto(*g, cat, rule, out@, s as int, k as int + 1)) by {
                            assert forall|p: int, q: int|
                                0 <= p < g.n_slots() && 0 <= q < g.class_nodes(p).len() && before(
                                    p,
                                    q,
                                    s as int,
                                    k as int + 1,
                                ) && (#[trigger] g.class_nodes(p)[q]).0 == Op::Order implies
                                out@.contains(
                                RuleMatch::OrderOnSorted {
                                    class: p as Id,
                                    child: g.class_nodes(p)[q].1[1],
                                },
                            ) by {
                                if !before(p, q, s as int, k as int) {
                                    assert(p == s as int && q == k as int);
                                }
                            }
                        }
                    }
                },
            }
            k = k + 1;
        }
        proof {
            assert(complete_upto(*g, cat, rule, out@, s as int + 1, 0)) by {
                match rule {
                    Rule::AndCommute => {},
                    Rule::FilterMerge => {
                        assert forall|p: int, q: int, q2: int|
                            before(p, q, s as int + 1, 0) && #[trigger] fm_at(*g, p, q, q2) implies
                            out@.contains(fm_match(*g, p, q, q2)) by {
                            assert(before(p, q, s as int, m as int));
                        }
                    },
                    Rule::FilterToIndexScan => {},
                    Rule::JoinCommute => {},
                    Rule::JoinToHashJoin => {},
                    Rule::OrderOnSorted => {},
                }
            }
        }
        s = s + 1;
    }
    proof {
        assert(complete_upto(*g, cat, rule, out@, g.n_slots() as int, 0)) by {
            match rule {
                Rule::AndCommute => {},
                Rule::FilterMerge => {
                    assert forall|p: int, q: int, q2: int|
                        before(p, q, g.n_slots() as int, 0) && #[trigger] fm_at(*g, p, q, q2)
                        implies out@.contains(fm_match(*g, p, q, q2)) by {
                        assert(before(p, q, n as int, 0));
                    }
                },
                Rule::FilterToIndexScan => {},
                Rule::JoinCommute => {},
                Rule::JoinToHashJoin => {},
                Rule::OrderOnSorted => {},
            }
        }
    }
    out
}

/// The applier's obligation: the hash-cons table of the later state holds
/// the node `(op, ch)` — children canonicalized against the earlier state
/// — and its slot now answers to the same class as `cls`.
pub open spec fn rewrite_done(g0: EGraph, g1: EGraph, op: Op, ch: Seq<Id>, cls: Id) -> bool {
    exists|id: Id|
        #![auto]
        (id as nat) < g1.n_slots() && memo_find(
            memo_keys(g1.memo@),
            (op, canon_ch(g0.uf@, ch)),
        ) == Some(id) && g1.uf@[id as int] == g1.uf@[cls as int]
}

/// The filter-merge rewrite is present: the merged predicate
/// `And(p1, p2)` answers through the hash-cons table, and a rewritten
/// `Filter` over that conjunction and the source answers through the
/// table with a class equal to the matched class's.
pub open spec fn filter_merge_applied(
    g0: EGraph,
    g1: EGraph,
    class: Id,
    p1: Id,
    p2: Id,
    src: Id,
) -> bool {
    exists|aid: Id, ia: Id, fid: Id|
        #![auto]
        {
            &&& memo_find(memo_keys(g1.memo@), (Op::And, canon_ch(g0.uf@, seq![p1, p2])))
                == Some(aid)
            &&& (aid as nat) < g1.n_slots()
            &&& (ia as nat) < g1.n_slots()
            &&& g1.uf@[aid as int] == g1.uf@[ia as int]
            &&& memo_find(memo_keys(g1.memo@), (Op::Filter, seq![ia, g0.uf@[src as int]]))
                == Some(fid)
            &&& (fid as nat) < g1.n_slots()
            &&& g1.uf@[fid as int] == g1.uf@[class as int]
        }
}

/// The match's rewritten form is present in the later graph and united
/// with the matched class.
pub open spec fn match_applied(g0: EGraph, g1: EGraph, m: RuleMatch) -> bool {
    match m {
        RuleMatch::AndCommute { class, a, b } => rewrite_done(g0, g1, Op::And, seq![b, a], class),
        RuleMatch::FilterMerge { class, p1, p2, src } => filter_merge_applied(
            g0,
            g1,
            class,
            p1,
            p2,
            src,
        ),
        RuleMatch::FilterToIndexScan { class, tbl, col, val } => rewrite_done(
            g0,
            g1,
            Op::IndexScan,
            seq![tbl, col, val],
            class,
        ),
        RuleMatch::JoinCommute { class, cond, l, r } => rewrite_done(
            g0,
            g1,
            Op::Join,
            seq![cond, r, l],
            class,
        ),
        RuleMatch::JoinToHashJoin { class, cond, l, r } => rewrite_done(
            g0,
            g1,
            Op::HashJoin,
            seq![cond, l, r],
            class,
        ),
        RuleMatch::OrderOnSorted { class, child } => g1.uf@[class as int] == g1.uf@[child as int],
    }
}

/// Saturation for one rule: every pattern standing in the graph already
/// has its rewrite present and united. This is the fixpoint meaning of
/// the runner's `Saturated` stop reason.
pub open spec fn rule_saturated(g: EGraph, cat: Seq<(u64, u64)>, rule: Rule) -> bool {
    match rule {
        Rule::AndCommute => forall|p: int, q: int|
            0 <= p < g.n_slots() && 0 <= q < g.class_nodes(p).len() && (
            #[trigger] g.class_nodes(p)[q]).0 == Op::And ==> match_applied(
                g,
                g,
                RuleMatch::AndCommute {
                    class: p as Id,
                    a: g.class_nodes(p)[q].1[0],
                    b: g.class_nodes(p)[q].1[1],
                },
            ),
        Rule::FilterMerge => forall|p: int, q: int, q2: int|
            #[trigger] fm_at(g, p, q, q2) ==> match_applied(g, g, fm_match(g, p, q, q2)),
        Rule::FilterToIndexScan => forall|p: int, q: int|
            0 <= p < g.n_slots() && 0 <= q < g.class_nodes(p).len() ==> (
            #[trigger] index_match_of(g, cat, p, q) matches Some(m) ==> match_applied(g, g, m)),
        Rule::JoinCommute => forall|p: int, q: int|
            0 <= p < g.n_slots() && 0 <= q < g.class_nodes(p).len() && (
            #[trigger] g.class_nodes(p)[q]).0 == Op::Join ==> match_applied(
                g,
                g,
                RuleMatch::JoinCommute {
                    class: p as Id,
                    cond: g.class_nodes(p)[q].1[0],
                    l: g.class_nodes(p)[q].1[1],
                    r: g.class_nodes(p)[q].1[2],
                },
            ),
        Rule::JoinToHashJoin => forall|p: int, q: int|
            0 <= p < g.n_slots() && 0 <= q < g.class_nodes(p).len() && (
            #[trigger] g.class_nodes(p)[q]).0 == Op::Join ==> match_applied(
                g,
                g,
                RuleMatch::JoinToHashJoin {
                    class: p as Id,
                    cond: g.class_nodes(p)[q].1[0],
                    l: g.class_nodes(p)[q].1[1],
                    r: g.class_nodes(p)[q].1[2],
                },
            ),
        Rule::OrderOnSorted => forall|p: int, q: int|
            0 <= p < g.n_slots() && 0 <= q < g.class_nodes(p).len() && (
            #[trigger] g.class_nodes(p)[q]).0 == Op::Order ==> match_applied(
                g,
                g,
                RuleMatch::OrderOnSorted { class: p as Id, child: g.class_nodes(p)[q].1[1] },
            ),
    }
}

/// Saturation for a whole rule set.
pub open spec fn rules_saturated(g: EGraph, cat: Seq<(u64, u64)>, rules: Seq<Rule>) -> bool {
    forall|i: int| 0 <= i < rules.len() ==> rule_saturated(g, cat, #[trigger] rules[i])
}

/// A present rewrite stays present in a graph with the same union-find
/// entries and the same hash-cons contents.
pub proof fn lemma_match_applied_same(a: EGraph, b: EGraph, m: RuleMatch)
    requires
        match_applied(a, a, m),
        b.uf@ == a.uf@,
        memo_keys(b.memo@) == memo_keys(a.memo@),
    ensures
        match_applied(b, b, m),
{
    assert(b.n_slots() == a.n_slots());
}

/// Being a prefix is transitive.
proof fn lemma_prefix_trans<A>(a: Seq<A>, b: Seq<A>, c: Seq<A>)
    requires
        a.is_prefix_of(b),
        b.is_prefix_of(c),
    ensures
        a.is_prefix_of(c),
{
    assert(a =~= c.subrange(0, a.len() as int));
}

/// Insert a freshly built node and unite it with an existing class: the
/// node's class and `cls`'s class answer alike afterwards.
fn add_and_unite(g: &mut EGraph, anal: &ExprAnalysis, op: Op, children: Vec<Id>, cls: Id)
    requires
        old(g).wf(),
        shape_ok((op, children@), old(g).n_slots()),
        (cls as nat) < old(g).n_slots(),
        old(g).n_slots() < usize::MAX,
    ensures
        final(g).wf(),
        old(g).n_slots() <= final(g).n_slots() <= old(g).n_slots() + 1,
        final(g).merges >= old(g).merges,
        equiv_preserved(*old(g), *final(g)),
        rewrite_done(*old(g), *final(g), op, children@, cls),
        memo_keys(old(g).memo@).is_prefix_of(memo_keys(final(g).memo@)),
        final(g).n_slots() == old(g).n_slots() ==> final(g).uf.spec_roots() <= old(
            g,
        ).uf.spec_roots(),
        final(g).n_slots() == old(g).n_slots() && final(g).uf.spec_roots() == old(
            g,
        ).uf.spec_roots() ==> *final(g) == *old(g),
    {
    let node = ENode::mk(op, children);
    let ghost g0 = *old(g);
    let ghost key = (op, canon_ch(g0.uf@, node.children@));
    let id = g.add_node(anal, node);
    let ghost g1 = *g;
    proof {
        assert(equiv_preserved(g0, g1)) by {
            assert forall|i: int, j: int|
                0 <= i < g0.n_slots() && 0 <= j < g0.n_slots() && g0.uf@[i] == g0.uf@[j] implies
                g1.uf@[i] == g1.uf@[j] by {
                assert(g1.uf@[i] == g0.uf@[i]);
                assert(g1.uf@[j] == g0.uf@[j]);
            }
        }
    }
    // The slot the hash-cons table answers for the node's key, and the
    // root the insertion returned.
    let ghost slot: Id = match memo_find(memo_keys(g0.memo@), key) {
        Some(id0) => id0,
        None => id,
    };
    proof {
        match memo_find(memo_keys(g0.memo@), key) {
            Some(id0) => {
                assert(g1 == g0);
                assert(memo_find(memo_keys(g1.memo@), key) == Some(slot));
                lemma_memo_find_some(memo_keys(g0.memo@), key, slot);
                let j = choose|j: int|
                    0 <= j < memo_keys(g0.memo@).len() && #[trigger] memo_keys(g0.memo@)[j] == (
                        key,
                        slot,
                    );
                assert(memo_keys(g0.memo@)[j] == (nv(g0.memo@[j].0), g0.memo@[j].1));
                assert((g0.memo@[j].1 as nat) < g0.n_slots());
                assert((slot as nat) < g0.n_slots());
                assert(g1.uf@[slot as int] == id);
                assert((id as nat) < g1.n_slots());
                assert(g1.uf@[id as int] == id);
            },
            None => {
                lemma_memo_find_push(memo_keys(g0.memo@), key, (key, id));
                assert(memo_keys(g1.memo@) == memo_keys(g0.memo@).push((key, id)));
                assert(memo_find(memo_keys(g1.memo@), key) == Some(slot));
                assert(g1.uf@[slot as int] == id);
                assert(g1.uf@[id as int] == id);
            },
        }
        assert(memo_keys(g0.memo@).is_prefix_of(memo_keys(g1.memo@)));
    }
    let merged = g.unite(cls, id);
    proof {
        let g2 = *g;
        assert(memo_keys(g2.memo@) == memo_keys(g1.memo@));
        assert(memo_find(memo_keys(g2.memo@), key) == Some(slot));
        if merged {
            lemma_equiv_preserved(g1, g2, g0, cls, id);
            // The union folded the node's root and `cls`'s root together.
            let ra = g1.uf@[cls as int];
            let rb = g1.uf@[id as int];
            assert(rb == id);
            let keep = crate::egraph::survivor(
                ra,
                rb,
                g1.class_nodes(ra as int).len(),
                g1.class_nodes(rb as int).len(),
            );
            assert(g2.uf@[cls as int] == keep);
            assert(g2.uf@[id as int] == keep);
            assert(g2.uf@[slot as int] == (if g1.uf@[slot as int] == (if keep == ra {
                rb
            } else {
                ra
            }) {
                keep
            } else {
                g1.uf@[slot as int]
            }));
            assert(g1.uf@[slot as int] == id);
            assert(g2.uf@[slot as int] == keep);
        } else {
            assert(g2 == g1);
            assert(g1.uf@[cls as int] == g1.uf@[id as int]);
            assert(g2.uf@[slot as int] == g2.uf@[cls as int]);
        }
        lemma_equiv_trans(g0, g1, g2);
        assert((slot as nat) < g2.n_slots());
        assert(g2.uf@[slot as int] == g2.uf@[cls as int]);
        assert(rewrite_done(g0, g2, op, node.children@, cls));
        // A run that neither added a slot nor folded a class changed
        // nothing at all.
        if g2.n_slots() == g0.n_slots() {
            assert(g1 == g0);
            if merged {
                assert(g2.uf.spec_roots() == g1.uf.spec_roots() - 1);
            } else {
                assert(g2 == g1);
            }
        }
    }
}

/// Apply one match: insert the rewritten form and unite it with the
/// matched class. Only adds nodes and equivalences, the rewritten node
/// really ends up equivalent to the matched class, and an application
/// that neither adds a slot nor folds a class leaves the graph exactly
/// as it was.
pub fn apply_match(g: &mut EGraph, anal: &ExprAnalysis, m: &RuleMatch)
    requires
        old(g).wf(),
        match_ok(*m, old(g).n_slots()),
        old(g).n_slots() + 2 <= usize::MAX,
    ensures
        final(g).wf(),
        old(g).n_slots() <= final(g).n_slots() <= old(g).n_slots() + 2,
        final(g).merges >= old(g).merges,
        equiv_preserved(*old(g), *final(g)),
        match_applied(*old(g), *final(g), *m),
        memo_keys(old(g).memo@).is_prefix_of(memo_keys(final(g).memo@)),
        final(g).n_slots() == old(g).n_slots() ==> final(g).uf.spec_roots() <= old(
            g,
        ).uf.spec_roots(),
        final(g).n_slots() == old(g).n_slots() && final(g).uf.spec_roots() == old(
            g,
        ).uf.spec_roots() ==> *final(g) == *old(g),
{
    let ghost g0 = *old(g);
    match *m {
        RuleMatch::AndCommute { class, a, b } => {
            let mut ch: Vec<Id> = Vec::new();
            ch.push(b);
            ch.push(a);
            proof {
                assert(ch@ =~= seq![b, a]);
            }
            add_and_unite(g, anal, Op::And, ch, class);
        },
        RuleMatch::FilterMerge { class, p1, p2, src } => {
            let mut ch: Vec<Id> = Vec::new();
            ch.push(p1);
            ch.push(p2);
            proof {
                assert(ch@ =~= seq![p1, p2]);
            }
            let node = ENode::mk(Op::And, ch);
            let ghost key_and = (Op::And, canon_ch(g0.uf@, seq![p1, p2]));
            let id_and = g.add_node(anal, node);
            let ghost g1 = *g;
            proof {
                assert(equiv_preserved(g0, g1)) by {
                    assert forall|i: int, j: int|
                        0 <= i < g0.n_slots() && 0 <= j < g0.n_slots() && g0.uf@[i]
                            == g0.uf@[j] implies g1.uf@[i] == g1.uf@[j] by {
                        assert(g1.uf@[i] == g0.uf@[i]);
                        assert(g1.uf@[j] == g0.uf@[j]);
                    }
                }
                // After the insertion, the table answers for the merged
                // predicate's key with a slot of the new node's class.
                match memo_find(memo_keys(g0.memo@), key_and) {
                    Some(aid) => {
                        assert(memo_find(memo_keys(g1.memo@), key_and) == Some(aid));
                        lemma_memo_find_some(memo_keys(g0.memo@), key_and, aid);
                        let j = choose|j: int|
                            0 <= j < memo_keys(g0.memo@).len() && #[trigger] memo_keys(
                                g0.memo@,
                            )[j] == (key_and, aid);
                        assert(memo_keys(g0.memo@)[j] == (nv(g0.memo@[j].0), g0.memo@[j].1));
                        assert((aid as nat) < g1.n_slots());
                        assert(g1 == g0);
                        assert(g1.uf@[aid as int] == id_and);
                        assert(g1.uf@[id_and as int] == id_and);
                        assert(memo_keys(g0.memo@).is_prefix_of(memo_keys(g1.memo@))) by {
                            assert(memo_keys(g0.memo@) =~= memo_keys(g1.memo@).subrange(
                                0,
                                memo_keys(g0.memo@).len() as int,
                            ));
                        }
                        assert(exists|a: Id|
                            #![auto]
                            memo_find(memo_keys(g1.memo@), key_and) == Some(a) && (a as nat)
                                < g1.n_slots() && g1.uf@[a as int] == g1.uf@[id_and as int]);
                    },
                    None => {
                        lemma_memo_find_push(memo_keys(g0.memo@), key_and, (key_and, id_and));
                        assert(memo_find(memo_keys(g1.memo@), key_and) == Some(id_and));
                        assert(g1.uf@[id_and as int] == id_and);
                        assert(memo_keys(g0.memo@).is_prefix_of(memo_keys(g1.memo@)));
                        assert(exists|a: Id|
                            #![auto]
                            memo_find(memo_keys(g1.memo@), key_and) == Some(a) && (a as nat)
                                < g1.n_slots() && g1.uf@[a as int] == g1.uf@[id_and as int]);
                    },
                }
                assert((src as nat) < g0.n_slots());
                assert(g1.uf@[src as int] == g0.uf@[src as int]);
                assert(g1.uf@[id_and as int] == id_and);
                assert(memo_keys(g0.memo@).is_prefix_of(memo_keys(g1.memo@)));
            }
            let mut ch2: Vec<Id> = Vec::new();
            ch2.push(id_and);
            ch2.push(src);
            proof {
                assert(ch2@ =~= seq![id_and, src]);
            }
            add_and_unite(g, anal, Op::Filter, ch2, class);
            proof {
                let g2 = *g;
                lemma_equiv_trans(g0, g1, g2);
                let a = choose|a: Id|
                    #![auto]
                    memo_find(memo_keys(g1.memo@), key_and) == Some(a) && (a as nat)
                        < g1.n_slots() && g1.uf@[a as int] == g1.uf@[id_and as int];
                lemma_memo_find_prefix(memo_keys(g1.memo@), memo_keys(g2.memo@), key_and);
                assert(memo_find(memo_keys(g2.memo@), key_and) == Some(a));
                assert(g2.uf@[a as int] == g2.uf@[id_and as int]);
                // The rewritten filter's key: the conjunction slot is its
                // own root, the source keeps its original root.
                assert(canon_ch(g1.uf@, seq![id_and, src]) =~= seq![
                    id_and,
                    g0.uf@[src as int],
                ]);
                let fid = choose|fid: Id|
                    #![auto]
                    (fid as nat) < g2.n_slots() && memo_find(
                        memo_keys(g2.memo@),
                        (Op::Filter, canon_ch(g1.uf@, seq![id_and, src])),
                    ) == Some(fid) && g2.uf@[fid as int] == g2.uf@[class as int];
                assert(memo_find(
                    memo_keys(g2.memo@),
                    (Op::Filter, seq![id_and, g0.uf@[src as int]]),
                ) == Some(fid));
                assert((id_and as nat) < g2.n_slots());
                assert(filter_merge_applied(g0, g2, class, p1, p2, src));
                lemma_prefix_trans(
                    memo_keys(g0.memo@),
                    memo_keys(g1.memo@),
                    memo_keys(g2.memo@),
                );
                if g2.n_slots() == g0.n_slots() {
                    assert(g1 == g0);
                }
            }
        },
        RuleMatch::FilterToIndexScan { class, tbl, col, val } => {
            let mut ch: Vec<Id> = Vec::new();
            ch.push(tbl);
            ch.push(col);
            ch.push(val);
            proof {
                assert(ch@ =~= seq![tbl, col, val]);
            }
            add_and_unite(g, anal, Op::IndexScan, ch, class);
        },
        RuleMatch::JoinCommute { class, cond, l, r } => {
            let mut ch: Vec<Id> = Vec::new();
            ch.push(cond);
            ch.push(r);
            ch.push(l);
            proof {
                assert(ch@ =~= seq![cond, r, l]);
            }
            add_and_unite(g, anal, Op::Join, ch, class);
        },
        RuleMatch::JoinToHashJoin { class, cond, l, r } => {
            let mut ch: Vec<Id> = Vec::new();
            ch.push(cond);
            ch.push(l);
            ch.push(r);
            proof {
                assert(ch@ =~= seq![cond, l, r]);
            }
            add_and_unite(g, anal, Op::HashJoin, ch, class);
        },
        RuleMatch::OrderOnSorted { class, child } => {
            let merged = g.unite(class, child);
            proof {
                if merged {
                    lemma_equiv_preserved(g0, *g, g0, class, child);
                    assert(g.uf.spec_roots() == g0.uf.spec_roots() - 1);
                } else {
                    assert(g.uf@[class as int] == g.uf@[child as int]);
                }
                assert(memo_keys(g.memo@) == memo_keys(g0.memo@));
                assert(memo_keys(g0.memo@).is_prefix_of(memo_keys(g.memo@))) by {
                    assert(memo_keys(g0.memo@) =~= memo_keys(g.memo@).subrange(
                        0,
                        memo_keys(g0.memo@).len() as int,
                    ));
                }
            }
        },
    }
}

} // verus!
