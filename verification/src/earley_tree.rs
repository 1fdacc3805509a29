//! From a parse forest to a tree: either one derivation is chosen, or all are
//! shown side by side.

use vstd::prelude::*;
use crate::bits;
use crate::bits::blank_row;
use crate::built;
use crate::built::Built;
use crate::cnf::add_weights;
use crate::earley_forest;
use crate::earley_forest::{Forest, ForestRef, NodeKey, Packed};
use crate::earley_rank;
use crate::empty_values;
use crate::empty_values::copy_slot;
use crate::perf;
use crate::steps;
use crate::symbols;
use crate::symbols::CompiledGrammar;
use crate::text::owned;
use crate::tree;
use crate::tree::{Child, Tree};
use crate::tree_builder;
use crate::tree_builder::{ContainerSpan, Slot, TreeOutputBuilder};
use crate::value_key;
use crate::value_key::node_value_key;

verus! {

// ---------------------------------------------------------------------------
// One derivation

/// Children on their way into a node, and the span of what was matched.
pub ghost struct Buffer {
    pub nodes: Seq<tree::Node>,
    pub span: ContainerSpan,
}

/// An empty buffer.
pub open spec fn blank_buffer() -> Buffer {
    Buffer { nodes: Seq::empty(), span: tree_builder::no_span() }
}

/// Whether the values of a node are spliced into their parent.
pub open spec fn is_transparent(w: earley_rank::Walk, id: int) -> bool {
    let families = w.forest.nodes[id].families;
    families.len() > 0 && w.rules[families[0].rule as int].transparent
}

/// The span with a value seen, where spans cover all that is matched.
pub open spec fn span_with(
    w: earley_rank::Walk,
    c: ContainerSpan,
    v: tree_builder::SlotModel,
) -> ContainerSpan {
    if !w.pp {
        c
    } else {
        match v {
            tree_builder::SlotModel::Value(n) => tree_builder::observed_node(c, n),
            tree_builder::SlotModel::Inline(ns) => tree_builder::observed_nodes(c, ns),
        }
    }
}

/// The buffer with the absent-optional marks that stand before a position.
pub open spec fn with_gap(w: earley_rank::Walk, b: Buffer, rule: int, pos: int) -> Buffer {
    Buffer {
        nodes: b.nodes + tree_builder::absents(symbols::nones_at(w.rules[rule], pos)),
        ..b
    }
}

/// The buffer with the value at a position of a rule.
pub open spec fn with_value(
    w: earley_rank::Walk,
    b: Buffer,
    rule: int,
    pos: int,
    v: tree_builder::SlotModel,
) -> Buffer {
    Buffer {
        nodes: b.nodes + tree_builder::slot_children(w.rules[rule], pos, v),
        span: span_with(w, b.span, v),
    }
}

/// A token of the forest as a value.
pub open spec fn token_value(w: earley_rank::Walk, t: int) -> tree_builder::SlotModel {
    tree_builder::SlotModel::Value(tree::Node::Token(w.forest.tokens[t]))
}

/// The value of a node, if it has one, and what has been found.
pub open spec fn node_value(
    w: earley_rank::Walk,
    id: int,
    m: earley_rank::Found,
    visiting: Seq<bool>,
) -> (Option<tree_builder::SlotModel>, earley_rank::Found)
    decreases bits::missing(visiting), 3nat, 0nat,
{
    if m.values[id] is Some {
        (m.values[id], m)
    } else if w.resolve {
        let (r, b, m0) = rule_appended(w, id, blank_buffer(), m, visiting);
        match r {
            None => (None, m0),
            Some(rule) => {
                let v = tree_builder::shaped(w.rules[rule], w.pp, b.nodes, b.span);
                let m1 = built_counted(m0, built::shape_built(w.rules[rule], b.nodes));
                (
                    Some(v),
                    if m1.seen[id] {
                        earley_rank::Found { values: m1.values.update(id, Some(v)), ..m1 }
                    } else {
                        earley_rank::Found { seen: m1.seen.update(id, true), ..m1 }
                    },
                )
            },
        }
    } else {
        let (ds, m1) = derivations(w, id, m, visiting);
        match side_by_side(ds) {
            None => (None, m1),
            Some(v) => (
                Some(v),
                if m1.derivs[id] is Some {
                    earley_rank::Found { values: m1.values.update(id, Some(v)), ..m1 }
                } else {
                    m1
                },
            ),
        }
    }
}

/// The buffer with the children of the first derivation of a node that does
/// not lead back to a node being built, and the rule of that derivation.
pub open spec fn rule_appended(
    w: earley_rank::Walk,
    id: int,
    b: Buffer,
    m: earley_rank::Found,
    visiting: Seq<bool>,
) -> (Option<int>, Buffer, earley_rank::Found)
    decreases bits::missing(visiting), 2nat, 0nat,
{
    if !(0 <= id < visiting.len()) || visiting[id] {
        (None, b, earley_rank::met_again(m, id))
    } else {
        let (order, prio) = earley_rank::tried(w, id, m.prio);
        proof {
            empty_values::lemma_visit(visiting, id);
        }
        let (r, b1, m1) = families_tried(
            w,
            id,
            order,
            0,
            b,
            earley_rank::entered(m, prio),
            visiting.update(id, true),
        );
        (r, b1, earley_rank::left(m1, id, m.hits))
    }
}

/// The same, from family number `k` of the order on.
pub open spec fn families_tried(
    w: earley_rank::Walk,
    id: int,
    order: Seq<usize>,
    k: nat,
    b: Buffer,
    m: earley_rank::Found,
    visiting: Seq<bool>,
) -> (Option<int>, Buffer, earley_rank::Found)
    decreases bits::missing(visiting), 7nat, order.len() - k,
{
    if k >= order.len() {
        (None, b, m)
    } else {
        let p = w.forest.nodes[id].families[order[k as int] as int];
        let (ok, b1, m1) = packed_appended(w, p, b, m, visiting);
        if ok {
            (Some(p.rule as int), b1, m1)
        } else {
            families_tried(w, id, order, k + 1, b, m1, visiting)
        }
    }
}

/// The buffer with the children of a family, and whether it could be built.
pub open spec fn packed_appended(
    w: earley_rank::Walk,
    p: Packed,
    b: Buffer,
    m: earley_rank::Found,
    visiting: Seq<bool>,
) -> (bool, Buffer, earley_rank::Found)
    decreases bits::missing(visiting), 6nat, 0nat,
{
    match p.left {
        ForestRef::Nothing => right_appended(w, p, b, m, visiting),
        ForestRef::Node(l) => {
            let (r, b1, m1) = rule_appended(w, l as int, b, m, visiting);
            if r is None {
                (false, b1, m1)
            } else {
                right_appended(w, p, b1, m1, visiting)
            }
        },
        ForestRef::Tok(t) => {
            let v = token_value(w, t as int);
            let b1 = Buffer {
                nodes: b.nodes.push(tree::Node::Token(w.forest.tokens[t as int])),
                span: span_with(w, b.span, v),
            };
            right_appended(w, p, b1, m, visiting)
        },
    }
}

/// The buffer with the last symbol of a family.
pub open spec fn right_appended(
    w: earley_rank::Walk,
    p: Packed,
    b: Buffer,
    m: earley_rank::Found,
    visiting: Seq<bool>,
) -> (bool, Buffer, earley_rank::Found)
    decreases bits::missing(visiting), 5nat, 0nat,
{
    let gap = with_gap(w, b, p.rule as int, p.right_pos as int);
    match p.right {
        ForestRef::Nothing => (true, b, m),
        ForestRef::Tok(t) => (
            true,
            with_value(w, gap, p.rule as int, p.right_pos as int, token_value(w, t as int)),
            m,
        ),
        ForestRef::Node(c) => if is_transparent(w, c as int) {
            let (r, b1, m1) = spliced(w, c as int, gap, m, visiting);
            (r is Some, b1, m1)
        } else {
            let (v, m1) = node_value(w, c as int, m, visiting);
            match v {
                None => (false, gap, m1),
                Some(x) => (
                    true,
                    with_value(w, gap, p.rule as int, p.right_pos as int, x),
                    m1,
                ),
            }
        },
    }
}

/// The buffer with the children of a transparent node.
pub open spec fn spliced(
    w: earley_rank::Walk,
    id: int,
    b: Buffer,
    m: earley_rank::Found,
    visiting: Seq<bool>,
) -> (Option<int>, Buffer, earley_rank::Found)
    decreases bits::missing(visiting), 4nat, 0nat,
{
    let (r, b1, m1) = rule_appended(w, id, b, m, visiting);
    match r {
        None => (None, b1, m1),
        Some(rule) => (
            Some(rule),
            Buffer {
                nodes: b1.nodes + tree_builder::trailing_absents(w.rules[rule]),
                ..b1
            },
            m1,
        ),
    }
}

// ---------------------------------------------------------------------------
// All derivations

/// A value as a child of an ambiguity node.
pub open spec fn as_child(v: tree_builder::SlotModel) -> tree::Node {
    match v {
        tree_builder::SlotModel::Value(n) => n,
        tree_builder::SlotModel::Inline(ns) => if ns.len() == 1 {
            ns[0]
        } else {
            ambiguity_node(ns)
        },
    }
}

/// A node that shows alternatives.
pub open spec fn ambiguity_node(ns: Seq<tree::Node>) -> tree::Node {
    tree::Node::Tree {
        data: "_ambig"@,
        children: ns,
        meta: tree_builder::children_meta(ns),
    }
}

/// A child of an ambiguity node as a value.
pub open spec fn as_value(n: tree::Node) -> tree_builder::SlotModel {
    match n {
        tree::Node::Absent => tree_builder::SlotModel::Inline(seq![n]),
        _ => tree_builder::SlotModel::Value(n),
    }
}

/// Derivations as one value: an ambiguity node where there are several.
pub open spec fn side_by_side(
    ds: Seq<tree_builder::SlotModel>,
) -> Option<tree_builder::SlotModel> {
    if ds.len() == 0 {
        None
    } else if ds.len() == 1 {
        Some(ds[0])
    } else {
        Some(
            tree_builder::SlotModel::Value(
                ambiguity_node(Seq::new(ds.len(), |i: int| as_child(ds[i]))),
            ),
        )
    }
}

/// Whether a value with the same key is among `ds`.
pub open spec fn key_among(
    ds: Seq<tree_builder::SlotModel>,
    v: tree_builder::SlotModel,
) -> bool {
    exists|i: int|
        0 <= i < ds.len() && value_key::value_key(#[trigger] ds[i]) == value_key::value_key(v)
}

/// The values with one more, unless one with the same key is there.
pub open spec fn deduped(
    ds: Seq<tree_builder::SlotModel>,
    v: tree_builder::SlotModel,
) -> Seq<tree_builder::SlotModel> {
    if key_among(ds, v) {
        ds
    } else {
        ds.push(v)
    }
}

/// The values with the first `k` alternatives of an ambiguity node.
pub open spec fn alternatives_added(
    ds: Seq<tree_builder::SlotModel>,
    ns: Seq<tree::Node>,
    k: nat,
) -> Seq<tree_builder::SlotModel>
    decreases k,
{
    if k == 0 {
        ds
    } else {
        deduped(alternatives_added(ds, ns, (k - 1) as nat), as_value(ns[k - 1]))
    }
}

/// The values with the outcome of one derivation: an ambiguity node is taken
/// apart, where it shows something.
pub open spec fn outcome_added(
    ds: Seq<tree_builder::SlotModel>,
    v: tree_builder::SlotModel,
) -> Seq<tree_builder::SlotModel> {
    match v {
        tree_builder::SlotModel::Value(tree::Node::Tree { data, children, meta }) => if data
            == "_ambig"@ && children.len() > 0 {
            alternatives_added(ds, children, children.len())
        } else {
            deduped(ds, v)
        },
        _ => deduped(ds, v),
    }
}

/// The values with the outcomes of the first `k` lists of children.
pub open spec fn outcomes_added(
    w: earley_rank::Walk,
    rule: int,
    ds: Seq<tree_builder::SlotModel>,
    lists: Seq<Seq<tree_builder::SlotModel>>,
    k: nat,
) -> Seq<tree_builder::SlotModel>
    decreases k,
{
    if k == 0 {
        ds
    } else {
        outcome_added(
            outcomes_added(w, rule, ds, lists, (k - 1) as nat),
            tree_builder::assembled(w.rules[rule], w.pp, lists[k - 1]),
        )
    }
}

/// How many children a value stands for.
pub open spec fn value_size(v: tree_builder::SlotModel) -> nat {
    match v {
        tree_builder::SlotModel::Value(tree::Node::Tree { data, children, meta }) => children.len(),
        tree_builder::SlotModel::Value(_) => 1,
        tree_builder::SlotModel::Inline(ns) => ns.len(),
    }
}

/// How many children the first `k` values stand for.
pub open spec fn values_size(ds: Seq<tree_builder::SlotModel>, k: nat) -> nat
    decreases k,
{
    if k == 0 {
        0
    } else {
        values_size(ds, (k - 1) as nat) + value_size(ds[k - 1])
    }
}

/// How many values the first `k` lists hold.
pub open spec fn lists_size(ls: Seq<Seq<tree_builder::SlotModel>>, k: nat) -> nat
    decreases k,
{
    if k == 0 {
        0
    } else {
        lists_size(ls, (k - 1) as nat) + ls[k - 1].len()
    }
}

/// What is known, with the children of values kept counted.
pub open spec fn children_counted(m: earley_rank::Found, n: nat) -> earley_rank::Found {
    earley_rank::Found {
        work: earley_rank::Work { children: perf::counted(m.work.children, n), ..m.work },
        ..m
    }
}

/// What is known, with the values copied counted.
pub open spec fn copies_counted(m: earley_rank::Found, n: nat) -> earley_rank::Found {
    earley_rank::Found {
        work: earley_rank::Work { copies: perf::counted(m.work.copies, n), ..m.work },
        ..m
    }
}

/// What is known, with what was built counted.
pub open spec fn built_counted(m: earley_rank::Found, t: built::Totals) -> earley_rank::Found {
    earley_rank::Found {
        work: earley_rank::Work { built: built::with(m.work.built, t), ..m.work },
        ..m
    }
}

/// What the values of the first `k` lists of children build.
pub open spec fn lists_built(
    w: earley_rank::Walk,
    rule: int,
    lists: Seq<Seq<tree_builder::SlotModel>>,
    k: nat,
) -> built::Totals
    decreases k,
{
    if k == 0 {
        built::nothing()
    } else {
        built::together(
            lists_built(w, rule, lists, (k - 1) as nat),
            built::reduction_built(w.rules[rule], lists[k - 1]),
        )
    }
}

/// What is known, with the children assembled, the derivations kept and what they
/// build counted.
pub open spec fn outcomes_counted(
    m: earley_rank::Found,
    assembled: nat,
    kept: nat,
    t: built::Totals,
) -> earley_rank::Found {
    earley_rank::Found {
        work: earley_rank::Work {
            assembled: perf::counted(m.work.assembled, assembled),
            derivations: perf::counted(m.work.derivations, kept),
            built: built::with(m.work.built, t),
            ..m.work
        },
        ..m
    }
}

/// All derivations of a node, and what has been found. They are kept unless one
/// was left out because it leads back to another node that is being built.
pub open spec fn derivations(
    w: earley_rank::Walk,
    id: int,
    m: earley_rank::Found,
    visiting: Seq<bool>,
) -> (Seq<tree_builder::SlotModel>, earley_rank::Found)
    decreases bits::missing(visiting), 2nat, 0nat,
{
    if m.derivs[id] is Some {
        (m.derivs[id]->0, m)
    } else if !(0 <= id < visiting.len()) || visiting[id] {
        (Seq::empty(), earley_rank::met_again(m, id))
    } else {
        let (order, prio) = earley_rank::tried(w, id, m.prio);
        proof {
            empty_values::lemma_visit(visiting, id);
        }
        let (ds, m1) = families_derived(
            w,
            id,
            order,
            order.len(),
            earley_rank::entered(m, prio),
            visiting.update(id, true),
        );
        let m2 = earley_rank::left(
            children_counted(m1, values_size(ds, ds.len())),
            id,
            m.hits,
        );
        (
            ds,
            if m2.hits.len() == m.hits.len() {
                earley_rank::Found { derivs: m2.derivs.update(id, Some(ds)), ..m2 }
            } else {
                m2
            },
        )
    }
}

/// The derivations by the first `k` families in order.
pub open spec fn families_derived(
    w: earley_rank::Walk,
    id: int,
    order: Seq<usize>,
    k: nat,
    m: earley_rank::Found,
    visiting: Seq<bool>,
) -> (Seq<tree_builder::SlotModel>, earley_rank::Found)
    decreases bits::missing(visiting), 7nat, k,
{
    if k == 0 {
        (Seq::empty(), m)
    } else {
        let (ds, m1) = families_derived(w, id, order, (k - 1) as nat, m, visiting);
        let p = w.forest.nodes[id].families[order[k - 1] as int];
        let (lists, m2) = packed_expanded(w, p, m1, visiting);
        let all = outcomes_added(w, p.rule as int, ds, lists, lists.len());
        (
            all,
            outcomes_counted(
                m2,
                lists_size(lists, lists.len()),
                (all.len() - ds.len()) as nat,
                lists_built(w, p.rule as int, lists, lists.len()),
            ),
        )
    }
}

/// Each of `lefts` with each of `rights` behind it, for the first `k` of
/// `lefts`.
pub open spec fn combined(
    lefts: Seq<Seq<tree_builder::SlotModel>>,
    rights: Seq<tree_builder::SlotModel>,
    k: nat,
) -> Seq<Seq<tree_builder::SlotModel>>
    decreases k,
{
    if k == 0 {
        Seq::empty()
    } else {
        combined(lefts, rights, (k - 1) as nat) + Seq::new(
            rights.len(),
            |i: int| lefts[k - 1].push(rights[i]),
        )
    }
}

/// How many values are copied to put each of `n` values behind the first `k`
/// lists.
pub open spec fn copies(lefts: Seq<Seq<tree_builder::SlotModel>>, n: nat, k: nat) -> nat
    decreases k,
{
    if k == 0 {
        0
    } else {
        copies(lefts, n, (k - 1) as nat) + lefts[k - 1].len() * n
    }
}

/// The lists of children by which a family can be built.
pub open spec fn packed_expanded(
    w: earley_rank::Walk,
    p: Packed,
    m: earley_rank::Found,
    visiting: Seq<bool>,
) -> (Seq<Seq<tree_builder::SlotModel>>, earley_rank::Found)
    decreases bits::missing(visiting), 6nat, 0nat,
{
    match p.left {
        ForestRef::Nothing => right_expanded(w, p, seq![Seq::empty()], m, visiting),
        ForestRef::Node(l) => {
            let (lefts, m1) = inter_expanded(w, l as int, m, visiting);
            if lefts.len() == 0 {
                (Seq::empty(), m1)
            } else {
                right_expanded(w, p, lefts, m1, visiting)
            }
        },
        ForestRef::Tok(t) => right_expanded(
            w,
            p,
            seq![seq![token_value(w, t as int)]],
            m,
            visiting,
        ),
    }
}

/// The values that the last symbol of a family can have.
pub open spec fn right_alternatives(
    w: earley_rank::Walk,
    p: Packed,
    c: int,
    m: earley_rank::Found,
    visiting: Seq<bool>,
) -> (Seq<tree_builder::SlotModel>, earley_rank::Found)
    decreases bits::missing(visiting), 5nat, 0nat,
{
    let open = is_transparent(w, c);
    if !w.resolve && (open || w.rules[p.rule as int].keep_all_tokens) {
        let known = if open {
            earley_rank::single_known(w, c, m.single, earley_rank::idle(w.forest.nodes.len()))
        } else {
            m.single
        };
        let m0 = earley_rank::Found { single: known, ..m };
        if open && known[c] == Some(true) {
            let (r, b, m1) = spliced(w, c, blank_buffer(), m0, visiting);
            if r is None {
                (Seq::empty(), m1)
            } else {
                (
                    seq![tree_builder::SlotModel::Inline(b.nodes)],
                    children_counted(m1, b.nodes.len()),
                )
            }
        } else {
            derivations(w, c, m0, visiting)
        }
    } else {
        let (v, m1) = node_value(w, c, m, visiting);
        match v {
            None => (Seq::empty(), m1),
            Some(x) => (seq![x], m1),
        }
    }
}

/// The given lists with the last symbol of a family behind each.
pub open spec fn right_expanded(
    w: earley_rank::Walk,
    p: Packed,
    lefts: Seq<Seq<tree_builder::SlotModel>>,
    m: earley_rank::Found,
    visiting: Seq<bool>,
) -> (Seq<Seq<tree_builder::SlotModel>>, earley_rank::Found)
    decreases bits::missing(visiting), 5nat, 1nat,
{
    match p.right {
        ForestRef::Nothing => (lefts, m),
        ForestRef::Tok(t) => (
            combined(lefts, seq![token_value(w, t as int)], lefts.len()),
            copies_counted(m, copies(lefts, 1, lefts.len())),
        ),
        ForestRef::Node(c) => {
            let (rights, m1) = right_alternatives(w, p, c as int, m, visiting);
            (
                combined(lefts, rights, lefts.len()),
                copies_counted(m1, copies(lefts, rights.len(), lefts.len())),
            )
        },
    }
}

/// The lists of children that a part of a rule can have.
pub open spec fn inter_expanded(
    w: earley_rank::Walk,
    id: int,
    m: earley_rank::Found,
    visiting: Seq<bool>,
) -> (Seq<Seq<tree_builder::SlotModel>>, earley_rank::Found)
    decreases bits::missing(visiting), 2nat, 0nat,
{
    if !(0 <= id < visiting.len()) || visiting[id] {
        (Seq::empty(), earley_rank::met_again(m, id))
    } else {
        let (order, prio) = earley_rank::tried(w, id, m.prio);
        proof {
            empty_values::lemma_visit(visiting, id);
        }
        let (out, m1) = families_expanded(
            w,
            id,
            order,
            order.len(),
            earley_rank::entered(m, prio),
            visiting.update(id, true),
        );
        (out, earley_rank::left(m1, id, m.hits))
    }
}

/// The lists of children by the first `k` families in order.
pub open spec fn families_expanded(
    w: earley_rank::Walk,
    id: int,
    order: Seq<usize>,
    k: nat,
    m: earley_rank::Found,
    visiting: Seq<bool>,
) -> (Seq<Seq<tree_builder::SlotModel>>, earley_rank::Found)
    decreases bits::missing(visiting), 7nat, k,
{
    if k == 0 {
        (Seq::empty(), m)
    } else {
        let (out, m1) = families_expanded(w, id, order, (k - 1) as nat, m, visiting);
        let p = w.forest.nodes[id].families[order[k - 1] as int];
        let (lists, m2) = packed_expanded(w, p, m1, visiting);
        (out + lists, m2)
    }
}

// ---------------------------------------------------------------------------
// The whole forest

/// Nothing found yet.
pub open spec fn nothing_found(n: nat) -> earley_rank::Found {
    earley_rank::Found {
        values: Seq::new(n, |i: int| None),
        seen: Seq::new(n, |i: int| false),
        derivs: Seq::new(n, |i: int| None),
        single: Seq::new(n, |i: int| None),
        prio: Seq::new(n, |i: int| None),
        hits: Seq::empty(),
        work: no_work(),
    }
}

/// No work done yet.
pub open spec fn no_work() -> earley_rank::Work {
    earley_rank::Work {
        copies: 0,
        children: 0,
        assembled: 0,
        derivations: 0,
        built: Built { reductions: 0, nodes: 0, bytes: 0 },
    }
}

/// The value of the root of a forest.
pub open spec fn transformed(
    w: earley_rank::Walk,
    root: int,
) -> Option<tree_builder::SlotModel> {
    let n = w.forest.nodes.len();
    node_value(w, root, nothing_found(n), earley_rank::idle(n)).0
}

/// The work that it takes to find that value.
pub open spec fn walk_work(w: earley_rank::Walk, root: int) -> earley_rank::Work {
    let n = w.forest.nodes.len();
    node_value(w, root, nothing_found(n), earley_rank::idle(n)).1.work
}

// ---------------------------------------------------------------------------
// Execution

/// What the walk has found so far.
pub struct Memos {
    values: Vec<Option<Slot>>,
    seen: Vec<bool>,
    derivs: Vec<Option<Vec<Slot>>>,
    single: Vec<Option<bool>>,
    prio: Vec<Option<i64>>,
    hits: Vec<usize>,
    work: earley_rank::Work,
}

/// The contents of a table of lists of values.
pub open spec fn deriv_models(
    s: Seq<Option<Vec<Slot>>>,
) -> Seq<Option<Seq<tree_builder::SlotModel>>> {
    Seq::new(
        s.len(),
        |i: int|
            match s[i] {
                Some(v) => Some(tree_builder::slot_models(v@)),
                None => None,
            },
    )
}

impl View for Memos {
    type V = earley_rank::Found;

    closed spec fn view(&self) -> earley_rank::Found {
        earley_rank::Found {
            values: empty_values::memo_models(self.values@),
            seen: self.seen@,
            derivs: deriv_models(self.derivs@),
            single: self.single@,
            prio: self.prio@,
            hits: self.hits@,
            work: self.work,
        }
    }
}

impl Memos {
    /// Notes that a node was met again while it is being built.
    fn meet_again(&mut self, id: usize)
        ensures
            final(self)@ == earley_rank::met_again(old(self)@, id as int),
    {
        self.hits.push(id);
    }

    /// Takes the nodes met again so far.
    fn enter(&mut self) -> (r: Vec<usize>)
        ensures
            r@ == old(self)@.hits,
            final(self)@ == (earley_rank::Found { hits: Seq::empty(), ..old(self)@ }),
    {
        let mut r: Vec<usize> = Vec::new();
        std::mem::swap(&mut r, &mut self.hits);
        proof {
            assert(self.hits@ =~= Seq::empty());
        }
        r
    }

    /// Puts them back, with those met while a node was built; the node itself no
    /// longer counts.
    fn leave(&mut self, id: usize, before: Vec<usize>)
        ensures
            final(self)@ == earley_rank::left(old(self)@, id as int, before@),
    {
        let ghost given = before@;
        let mut out = before;
        let mut i: usize = 0;
        proof {
            assert(self.hits@.take(0) =~= Seq::empty());
            assert(given + earley_rank::without(self.hits@.take(0), id) =~= given);
        }
        while i < self.hits.len()
            invariant
                i <= self.hits@.len(),
                *self == *old(self),
                out@ == given + earley_rank::without(self.hits@.take(i as int), id),
            decreases self.hits.len() - i,
        {
            let x: usize = self.hits[i];
            proof {
                assert(self.hits@.take(i + 1).drop_last() =~= self.hits@.take(i as int));
                assert(self.hits@.take(i + 1).last() == x);
            }
            if x != id {
                let ghost prev = out@;
                out.push(x);
                proof {
                    assert(out@ =~= given + earley_rank::without(self.hits@.take(i + 1), id));
                }
            }
            i = i + 1;
        }
        proof {
            assert(self.hits@.take(self.hits@.len() as int) =~= self.hits@);
        }
        self.hits = out;
    }
}

/// Whether there is an entry for each node.
pub open spec fn fits(w: earley_rank::Walk, m: earley_rank::Found) -> bool {
    let n = w.forest.nodes.len();
    &&& m.values.len() == n
    &&& m.seen.len() == n
    &&& m.derivs.len() == n
    &&& m.single.len() == n
    &&& m.prio.len() == n
}

/// Walks a forest and builds its tree.
pub struct Transformer<'a> {
    grammar: &'a CompiledGrammar,
    forest: &'a Forest,
    resolve: bool,
    pp: bool,
    terms: Vec<i64>,
}

/// The priorities of the terminals, as far as the first `k` definitions give
/// them.
pub open spec fn term_priorities(g: CompiledGrammar, k: nat) -> Seq<i64>
    decreases k,
{
    if k == 0 {
        Seq::new(g.symbols@.len(), |i: int| 0)
    } else {
        let prev = term_priorities(g, (k - 1) as nat);
        let t = g.terminals@[k - 1];
        match symbols::id_of(g.symbols@, t.name@) {
            Some(id) => if t.priority != 0 {
                prev.update(id.ix() as int, t.priority)
            } else {
                prev
            },
            None => prev,
        }
    }
}

/// What a walk over a forest works with.
pub open spec fn walk_of(
    g: CompiledGrammar,
    f: earley_forest::ForestModel,
    resolve: bool,
    term_priority: bool,
) -> earley_rank::Walk {
    earley_rank::Walk {
        forest: f,
        rules: g.models(),
        resolve,
        pp: g.propagate_positions,
        terms: if term_priority {
            term_priorities(g, g.terminals@.len())
        } else {
            Seq::empty()
        },
    }
}

/// Whether every family of a forest points into it and names a rule.
pub open spec fn walk_ok(w: earley_rank::Walk) -> bool {
    &&& w.forest.nodes.len() <= usize::MAX
    &&& forall|i: int|
        0 <= i < w.forest.nodes.len() ==> earley_forest::families_ok(
            w.forest,
            w.rules.len(),
            #[trigger] w.forest.nodes[i],
        ) && w.forest.nodes[i].families.len() <= usize::MAX
}

fn copy_slots(v: &Vec<Slot>) -> (r: Vec<Slot>)
    ensures
        tree_builder::slot_models(r@) == tree_builder::slot_models(v@),
{
    let mut r: Vec<Slot> = Vec::new();
    let mut i: usize = 0;
    while i < v.len()
        invariant
            i <= v@.len(),
            r@.len() == i,
            forall|k: int| 0 <= k < i ==> (#[trigger] r@[k])@ == v@[k]@,
        decreases v.len() - i,
    {
        r.push(copy_slot(&v[i]));
        i = i + 1;
    }
    proof {
        assert(tree_builder::slot_models(r@) =~= tree_builder::slot_models(v@));
    }
    r
}

// ---------------------------------------------------------------------------
// Looking at nodes, step by step

/// A node whose parts are being ranked: those before family `k` are, and where
/// `right` is set, the left part of that family.
struct Ranking {
    id: usize,
    k: usize,
    right: bool,
}

/// The priorities once the parts of families are ranked that are left to rank.
spec fn parts_ranked(
    w: earley_rank::Walk,
    families: Seq<Packed>,
    k: nat,
    right: bool,
    prio: Seq<Option<i64>>,
    visiting: Seq<bool>,
) -> Seq<Option<i64>>
    decreases
            families.len() - k,
            if right {
                0nat
            } else {
                1nat
            },
{
    if k >= families.len() {
        prio
    } else if right {
        let p1 = earley_rank::ref_ranked(w, families[k as int].right, prio, visiting);
        parts_ranked(w, families, k + 1, false, p1, visiting)
    } else {
        let p1 = earley_rank::ref_ranked(w, families[k as int].left, prio, visiting);
        parts_ranked(w, families, k, true, p1, visiting)
    }
}

/// The priorities once all open nodes are ranked.
spec fn all_ranked(
    w: earley_rank::Walk,
    s: Seq<Ranking>,
    prio: Seq<Option<i64>>,
    visiting: Seq<bool>,
) -> Seq<Option<i64>>
    decreases s.len(),
{
    if s.len() == 0 {
        prio
    } else {
        let f = s.last();
        let n = w.forest.nodes[f.id as int];
        let p1 = parts_ranked(w, n.families, f.k as nat, f.right, prio, visiting);
        let best: i64 = if n.families.len() == 0 {
            0
        } else {
            earley_rank::best_priority(w, p1, visiting, n, n.families.len())
        };
        all_ranked(
            w,
            s.drop_last(),
            p1.update(f.id as int, Some(best)),
            visiting.update(f.id as int, false),
        )
    }
}

proof fn lemma_parts_ranked(
    w: earley_rank::Walk,
    families: Seq<Packed>,
    k: nat,
    prio: Seq<Option<i64>>,
    visiting: Seq<bool>,
)
    requires
        k <= families.len(),
    ensures
        parts_ranked(w, families, 0, false, prio, visiting) == parts_ranked(
            w,
            families,
            k,
            false,
            earley_rank::families_ranked(w, families, prio, visiting, k),
            visiting,
        ),
    decreases k,
{
    if k > 0 {
        lemma_parts_ranked(w, families, (k - 1) as nat, prio, visiting);
        let p0 = earley_rank::families_ranked(w, families, prio, visiting, (k - 1) as nat);
        let p1 = earley_rank::ref_ranked(w, families[k - 1].left, p0, visiting);
        assert(parts_ranked(w, families, (k - 1) as nat, false, p0, visiting) == parts_ranked(
            w,
            families,
            (k - 1) as nat,
            true,
            p1,
            visiting,
        ));
    }
}

/// Whether the nodes being ranked are being visited, and are all that are but
/// for those of the beginning.
spec fn ranking_ok(
    w: earley_rank::Walk,
    s: Seq<Ranking>,
    visiting: Seq<bool>,
    v0: Seq<bool>,
) -> bool
    decreases s.len(),
{
    if s.len() == 0 {
        visiting == v0
    } else {
        let f = s.last();
        &&& f.id < w.forest.nodes.len()
        &&& visiting.len() == w.forest.nodes.len()
        &&& visiting[f.id as int]
        &&& f.k <= w.forest.nodes[f.id as int].families.len()
        &&& f.right ==> f.k < w.forest.nodes[f.id as int].families.len()
        &&& ranking_ok(w, s.drop_last(), visiting.update(f.id as int, false), v0)
    }
}

/// What is left to rank at a node.
spec fn ranking_left(w: earley_rank::Walk, f: Ranking) -> nat {
    (2 * (w.forest.nodes[f.id as int].families.len() - f.k) + if f.right {
        1int
    } else {
        2int
    }) as nat
}

spec fn rankings_left(w: earley_rank::Walk, s: Seq<Ranking>) -> Seq<nat> {
    Seq::new(s.len(), |i: int| ranking_left(w, s[i])).push(0)
}

/// More than is left to rank at any node.
spec fn most_to_rank() -> nat {
    2 * usize::MAX as nat + 3
}

proof fn lemma_ranking_depth(
    w: earley_rank::Walk,
    s: Seq<Ranking>,
    visiting: Seq<bool>,
    v0: Seq<bool>,
)
    requires
        walk_ok(w),
        ranking_ok(w, s, visiting, v0),
    ensures
        bits::missing(visiting) + s.len() <= bits::missing(v0),
        forall|i: int| 0 <= i < s.len() ==> ranking_left(w, #[trigger] s[i]) < most_to_rank(),
    decreases s.len(),
{
    if s.len() > 0 {
        let f = s.last();
        let outer = visiting.update(f.id as int, false);
        lemma_ranking_depth(w, s.drop_last(), outer, v0);
        empty_values::lemma_visit(outer, f.id as int);
        assert(outer.update(f.id as int, true) =~= visiting);
        assert(w.forest.nodes[f.id as int].families.len() <= usize::MAX);
        assert forall|i: int| 0 <= i < s.len() implies ranking_left(w, #[trigger] s[i])
            < most_to_rank() by {
            if i < s.len() - 1 {
                assert(s[i] == s.drop_last()[i]);
            }
        }
    }
}

/// A node whose only family is being looked at: its right part was where
/// `seen` is 1, its left part too where it is 2.
struct Looking {
    id: usize,
    seen: usize,
}

/// What is known of single derivations once all open nodes are looked at.
spec fn all_known(
    w: earley_rank::Walk,
    s: Seq<Looking>,
    single: Seq<Option<bool>>,
    visiting: Seq<bool>,
) -> Seq<Option<bool>>
    decreases s.len(),
{
    if s.len() == 0 {
        single
    } else {
        let f = s.last();
        let id = f.id as int;
        let p = w.forest.nodes[id].families[0];
        let s1 = if f.seen == 0 {
            earley_rank::ref_single_known(w, p.right, single, visiting)
        } else {
            single
        };
        let s2 = if f.seen <= 1 {
            earley_rank::ref_single_known(w, p.left, s1, visiting)
        } else {
            s1
        };
        let s3 = if s2[id] is Some {
            s2
        } else {
            s2.update(
                id,
                Some(earley_rank::ref_single(s2, p.left) && earley_rank::ref_single(s2, p.right)),
            )
        };
        all_known(w, s.drop_last(), s3, visiting.update(id, false))
    }
}

/// Whether the nodes being looked at are being visited, and are all that are
/// but for those of the beginning.
spec fn looking_ok(
    w: earley_rank::Walk,
    s: Seq<Looking>,
    visiting: Seq<bool>,
    v0: Seq<bool>,
) -> bool
    decreases s.len(),
{
    if s.len() == 0 {
        visiting == v0
    } else {
        let f = s.last();
        &&& f.id < w.forest.nodes.len()
        &&& visiting.len() == w.forest.nodes.len()
        &&& visiting[f.id as int]
        &&& f.seen <= 2
        &&& w.forest.nodes[f.id as int].families.len() == 1
        &&& looking_ok(w, s.drop_last(), visiting.update(f.id as int, false), v0)
    }
}

/// What is left to look at, node by node.
spec fn looks_left(s: Seq<Looking>) -> Seq<nat> {
    Seq::new(s.len(), |i: int| (3 - s[i].seen) as nat).push(0)
}

proof fn lemma_looking_depth(
    w: earley_rank::Walk,
    s: Seq<Looking>,
    visiting: Seq<bool>,
    v0: Seq<bool>,
)
    requires
        looking_ok(w, s, visiting, v0),
    ensures
        bits::missing(visiting) + s.len() <= bits::missing(v0),
        forall|i: int| 0 <= i < s.len() ==> (#[trigger] s[i]).seen <= 2,
    decreases s.len(),
{
    if s.len() > 0 {
        let f = s.last();
        let outer = visiting.update(f.id as int, false);
        lemma_looking_depth(w, s.drop_last(), outer, v0);
        empty_values::lemma_visit(outer, f.id as int);
        assert(outer.update(f.id as int, true) =~= visiting);
        assert forall|i: int| 0 <= i < s.len() implies (#[trigger] s[i]).seen <= 2 by {
            if i < s.len() - 1 {
                assert(s[i] == s.drop_last()[i]);
            }
        }
    }
}

impl<'a> Transformer<'a> {
    /// What the walk works with.
    pub closed spec fn walk(&self) -> earley_rank::Walk {
        earley_rank::Walk {
            forest: self.forest@,
            rules: self.grammar.models(),
            resolve: self.resolve,
            pp: self.pp,
            terms: self.terms@,
        }
    }

    /// Prepares a walk over a forest.
    pub fn new(
        grammar: &'a CompiledGrammar,
        forest: &'a Forest,
        resolve: bool,
        term_priority: bool,
    ) -> (r: Self)
        requires
            grammar.wf(),
        ensures
            r.walk() == walk_of(*grammar, forest@, resolve, term_priority),
    {
        let mut terms: Vec<i64> = Vec::new();
        if term_priority {
            let n: usize = grammar.symbols.len();
            let mut i: usize = 0;
            while i < n
                invariant
                    i <= n,
                    terms@ == Seq::new(i as nat, |k: int| 0i64),
                decreases n - i,
            {
                terms.push(0);
                proof {
                    assert(terms@ =~= Seq::new((i + 1) as nat, |k: int| 0i64));
                }
                i = i + 1;
            }
            let mut k: usize = 0;
            proof {
                assert(terms@ =~= term_priorities(*grammar, 0));
            }
            while k < grammar.terminals.len()
                invariant
                    k <= grammar.terminals@.len(),
                    grammar.wf(),
                    terms@.len() == grammar.symbols@.len(),
                    terms@ == term_priorities(*grammar, k as nat),
                decreases grammar.terminals.len() - k,
            {
                let t = &grammar.terminals[k];
                let id = grammar.symbols.id(t.name.as_str());
                if let Some(s) = id {
                    if t.priority != 0 {
                        terms.set(s.index(), t.priority);
                    }
                }
                k = k + 1;
            }
        }
        Transformer { grammar, forest, resolve, pp: grammar.propagate_positions, terms }
    }

    fn part_priority(&self, prio: &Vec<Option<i64>>, visiting: &Vec<bool>, r: ForestRef) -> (v: i64)
        requires
            prio@.len() == self.walk().forest.nodes.len(),
            visiting@.len() == prio@.len(),
            earley_forest::ref_ok(self.walk().forest, r),
        ensures
            v == earley_rank::ref_priority(self.walk(), prio@, visiting@, r),
    {
        match r {
            ForestRef::Nothing => 0,
            ForestRef::Node(c) => {
                if visiting[c] {
                    0
                } else {
                    match prio[c] {
                        Some(p) => p,
                        None => 0,
                    }
                }
            },
            ForestRef::Tok(t) => {
                let s = self.forest.tokens[t].type_id;
                proof {
                    assert(self.walk().forest.tokens[t as int] == self.forest.tokens@[t as int]@);
                }
                if s.index() < self.terms.len() {
                    self.terms[s.index()]
                } else {
                    0
                }
            },
        }
    }

    fn packed_priority_value(
        &self,
        prio: &Vec<Option<i64>>,
        visiting: &Vec<bool>,
        p: &Packed,
        inter: bool,
    ) -> (v: i64)
        requires
            prio@.len() == self.walk().forest.nodes.len(),
            visiting@.len() == prio@.len(),
            earley_forest::packed_ok(self.walk().forest, self.walk().rules.len(), *p),
        ensures
            v == earley_rank::packed_priority(self.walk(), prio@, visiting@, *p, inter),
    {
        proof {
            assert(self.walk().rules[p.rule as int] == self.grammar.rules@[p.rule as int]@);
        }
        let base: i64 = if inter {
            0
        } else {
            self.grammar.rules[p.rule].options.priority
        };
        add_weights(
            add_weights(base, self.part_priority(prio, visiting, p.left)),
            self.part_priority(prio, visiting, p.right),
        )
    }

    fn rank_part(&self, r: ForestRef, prio: &mut Vec<Option<i64>>, visiting: &mut Vec<bool>)
        requires
            walk_ok(self.walk()),
            old(prio)@.len() == self.walk().forest.nodes.len(),
            old(visiting)@.len() == old(prio)@.len(),
            earley_forest::ref_ok(self.walk().forest, r),
        ensures
            final(prio)@ == earley_rank::ref_ranked(
                self.walk(),
                r,
                old(prio)@,
                old(visiting)@,
            ),
            final(prio)@.len() == old(prio)@.len(),
            final(visiting)@ == old(visiting)@,
    {
        if let ForestRef::Node(c) = r {
            self.node_priority(c, prio, visiting);
        }
    }

    /// The priority of a node whose parts are ranked.
    fn best_of(&self, id: usize, prio: &Vec<Option<i64>>, visiting: &Vec<bool>) -> (r: i64)
        requires
            walk_ok(self.walk()),
            prio@.len() == self.walk().forest.nodes.len(),
            visiting@.len() == prio@.len(),
            id < prio@.len(),
        ensures
            r == (if self.walk().forest.nodes[id as int].families.len() == 0 {
                0
            } else {
                earley_rank::best_priority(
                    self.walk(),
                    prio@,
                    visiting@,
                    self.walk().forest.nodes[id as int],
                    self.walk().forest.nodes[id as int].families.len(),
                )
            }),
    {
        let ghost w = self.walk();
        let node = &self.forest.nodes[id];
        let ghost n = w.forest.nodes[id as int];
        proof {
            assert(n == node@);
            assert(earley_forest::families_ok(w.forest, w.rules.len(), w.forest.nodes[id as int]));
        }
        let len: usize = node.families.len();
        if len == 0 {
            return 0;
        }
        let inter = match node.key {
            NodeKey::Inter(_, _) => true,
            NodeKey::Sym(_) => false,
        };
        let mut best: i64 = i64::MIN;
        let mut k: usize = 0;
        while k < len
            invariant
                k <= len,
                w == self.walk(),
                walk_ok(w),
                n == node@,
                len == n.families.len(),
                inter == n.key is Inter,
                earley_forest::families_ok(w.forest, w.rules.len(), n),
                visiting@.len() == w.forest.nodes.len(),
                prio@.len() == w.forest.nodes.len(),
                best == earley_rank::best_priority(w, prio@, visiting@, n, k as nat),
            decreases len - k,
        {
            let p = node.families[k];
            proof {
                assert(earley_forest::packed_ok(w.forest, w.rules.len(), n.families[k as int]));
            }
            let v: i64 = self.packed_priority_value(prio, visiting, &p, inter);
            if v > best {
                best = v;
            }
            k = k + 1;
        }
        best
    }

    /// Ranks a node and all that it leads to. The nodes being ranked are kept on
    /// a stack of their own.
    #[verifier::rlimit(80)]
    fn node_priority(&self, id: usize, prio: &mut Vec<Option<i64>>, visiting: &mut Vec<bool>)
        requires
            walk_ok(self.walk()),
            old(prio)@.len() == self.walk().forest.nodes.len(),
            old(visiting)@.len() == old(prio)@.len(),
            id < old(prio)@.len(),
        ensures
            final(prio)@ == earley_rank::ranked(
                self.walk(),
                id as int,
                old(prio)@,
                old(visiting)@,
            ),
            final(prio)@.len() == old(prio)@.len(),
            final(visiting)@ == old(visiting)@,
    {
        let ghost w = self.walk();
        let ghost v0 = visiting@;
        let ghost goal = earley_rank::ranked(w, id as int, prio@, v0);
        if visiting[id] || prio[id].is_some() {
            return;
        }
        let mut stack: Vec<Ranking> = Vec::new();
        stack.push(Ranking { id, k: 0, right: false });
        visiting.set(id, true);
        let ghost depth: nat = bits::missing(v0) + 1;
        proof {
            assert(visiting@.update(id as int, false) =~= v0);
            assert(stack@.drop_last() =~= Seq::empty());
            let families = w.forest.nodes[id as int].families;
            lemma_parts_ranked(w, families, families.len(), prio@, visiting@);
            reveal_with_fuel(all_ranked, 2);
            reveal_with_fuel(ranking_ok, 2);
        }
        while stack.len() > 0
            invariant
                w == self.walk(),
                walk_ok(w),
                v0 == old(visiting)@,
                v0.len() == w.forest.nodes.len(),
                visiting@.len() == w.forest.nodes.len(),
                prio@.len() == w.forest.nodes.len(),
                depth == bits::missing(v0) + 1,
                ranking_ok(w, stack@, visiting@, v0),
                all_ranked(w, stack@, prio@, visiting@) == goal,
            decreases steps::measure(rankings_left(w, stack@), most_to_rank(), depth, 0),
        {
            let ghost s0 = stack@;
            let ghost given = rankings_left(w, s0);
            let ghost p0 = prio@;
            let ghost vis = visiting@;
            let ghost last: int = s0.len() - 1;
            proof {
                lemma_ranking_depth(w, s0, vis, v0);
                assert(given[last] == ranking_left(w, s0[last]));
            }
            if let Some(f) = stack.pop() {
                let node = &self.forest.nodes[f.id];
                let ghost n = w.forest.nodes[f.id as int];
                proof {
                    assert(n == node@);
                    assert(earley_forest::families_ok(
                        w.forest,
                        w.rules.len(),
                        w.forest.nodes[f.id as int],
                    ));
                }
                let len: usize = node.families.len();
                if f.k >= len {
                    let best = self.best_of(f.id, prio, visiting);
                    visiting.set(f.id, false);
                    prio.set(f.id, Some(best));
                    proof {
                        assert(visiting@ =~= vis.update(f.id as int, false));
                        assert(stack@ =~= s0.drop_last());
                        assert(rankings_left(w, stack@)[last] == 0);
                    }
                } else {
                    let p = node.families[f.k];
                    proof {
                        assert(earley_forest::packed_ok(
                            w.forest,
                            w.rules.len(),
                            n.families[f.k as int],
                        ));
                    }
                    let part = if f.right {
                        p.right
                    } else {
                        p.left
                    };
                    let next = if f.right {
                        Ranking { id: f.id, k: f.k + 1, right: false }
                    } else {
                        Ranking { id: f.id, k: f.k, right: true }
                    };
                    stack.push(next);
                    let ghost s1 = stack@;
                    proof {
                        assert(s1.drop_last() =~= s0.drop_last());
                        assert(ranking_ok(w, s1, vis, v0));
                        assert(all_ranked(w, s0, p0, vis) == all_ranked(
                            w,
                            s1,
                            earley_rank::ref_ranked(w, part, p0, vis),
                            vis,
                        ));
                        assert(rankings_left(w, s1)[last] == ranking_left(w, next));
                    }
                    if let ForestRef::Node(c) = part {
                        if !visiting[c] && prio[c].is_none() {
                            stack.push(Ranking { id: c, k: 0, right: false });
                            visiting.set(c, true);
                            proof {
                                assert(stack@.drop_last() =~= s1);
                                assert(visiting@.update(c as int, false) =~= vis);
                                let families = w.forest.nodes[c as int].families;
                                lemma_parts_ranked(w, families, families.len(), p0, visiting@);
                                assert(all_ranked(w, stack@, p0, visiting@) == all_ranked(
                                    w,
                                    s1,
                                    earley_rank::ranked(w, c as int, p0, vis),
                                    vis,
                                ));
                                assert(rankings_left(w, stack@)[last] == ranking_left(w, next));
                            }
                        }
                    }
                }
            }
            proof {
                let t = rankings_left(w, stack@);
                lemma_ranking_depth(w, stack@, visiting@, v0);
                assert forall|j: int| 0 <= j < last implies given[j] == #[trigger] t[j] by {
                    assert(stack@[j] == s0[j]);
                }
                assert(steps::is_less(t, given, last));
                assert(steps::is_bounded(t, most_to_rank(), depth));
                steps::lemma_less(t, given, most_to_rank(), depth, last);
            }
        }
        proof {
            assert(stack@.len() == 0);
        }
    }

    /// The families of a node in the order in which they are tried.
    #[verifier::rlimit(40)]
    fn sorted_families(&self, id: usize, prio: &mut Vec<Option<i64>>) -> (r: Vec<usize>)
        requires
            walk_ok(self.walk()),
            old(prio)@.len() == self.walk().forest.nodes.len(),
            id < old(prio)@.len(),
        ensures
            (r@, final(prio)@) == earley_rank::tried(self.walk(), id as int, old(prio)@),
            final(prio)@.len() == old(prio)@.len(),
            r@.len() == self.walk().forest.nodes[id as int].families.len(),
            forall|i: int|
                0 <= i < r@.len() ==> #[trigger] r@[i]
                    < self.walk().forest.nodes[id as int].families.len(),
    {
        let ghost w = self.walk();
        let ghost p0 = prio@;
        let node = &self.forest.nodes[id];
        let ghost n = w.forest.nodes[id as int];
        let ghost free = earley_rank::idle(w.forest.nodes.len());
        proof {
            assert(n == node@);
            assert(earley_forest::families_ok(w.forest, w.rules.len(), w.forest.nodes[id as int]));
        }
        let len: usize = node.families.len();
        let inter = match node.key {
            NodeKey::Inter(_, _) => true,
            NodeKey::Sym(_) => false,
        };
        let mut visiting = blank_row(self.forest.nodes.len());
        proof {
            assert(visiting@ =~= free);
        }
        let mut prios: Vec<i64> = Vec::new();
        let mut k: usize = 0;
        while k < len
            invariant
                k <= len,
                w == self.walk(),
                walk_ok(w),
                n == node@,
                n == w.forest.nodes[id as int],
                len == n.families.len(),
                inter == n.key is Inter,
                earley_forest::families_ok(w.forest, w.rules.len(), n),
                free == earley_rank::idle(w.forest.nodes.len()),
                visiting@ == free,
                prio@.len() == w.forest.nodes.len(),
                prios@.len() == k,
                (prios@, prio@) == earley_rank::family_priorities(w, id as int, p0, k as nat),
            decreases len - k,
        {
            let p = node.families[k];
            proof {
                assert(earley_forest::packed_ok(w.forest, w.rules.len(), n.families[k as int]));
            }
            self.rank_part(p.left, prio, &mut visiting);
            self.rank_part(p.right, prio, &mut visiting);
            let v: i64 = self.packed_priority_value(prio, &visiting, &p, inter);
            prios.push(v);
            k = k + 1;
        }
        let ghost vs = prios@;
        let mut order: Vec<usize> = Vec::new();
        k = 0;
        while k < len
            invariant
                k <= len,
                w == self.walk(),
                walk_ok(w),
                n == node@,
                len == n.families.len(),
                earley_forest::families_ok(w.forest, w.rules.len(), n),
                prios@ == vs,
                vs.len() == len,
                order@ == earley_rank::in_order(w, n.families, vs, k as nat),
            decreases len - k,
        {
            proof {
                earley_rank::lemma_in_order(w, n.families, vs, k as nat);
            }
            self.insert_family(&node.families, &prios, &mut order, k);
            k = k + 1;
        }
        proof {
            earley_rank::lemma_in_order(w, n.families, vs, len as nat);
        }
        order
    }

    fn insert_family(
        &self,
        families: &Vec<Packed>,
        prios: &Vec<i64>,
        order: &mut Vec<usize>,
        x: usize,
    )
        requires
            x < families@.len(),
            prios@.len() == families@.len(),
            forall|i: int| 0 <= i < old(order)@.len() ==> #[trigger] old(order)@[i] < families@.len(),
            forall|i: int|
                0 <= i < families@.len() ==> (#[trigger] families@[i]).rule
                    < self.walk().rules.len(),
        ensures
            final(order)@ == earley_rank::inserted(
                self.walk(),
                families@,
                prios@,
                old(order)@,
                x,
            ),
    {
        let ghost w = self.walk();
        let ghost given = order@;
        let mut tail: Vec<usize> = Vec::new();
        while order.len() > 0 && self.goes_before(families, prios, x, order[order.len() - 1])
            invariant
                w == self.walk(),
                x < families@.len(),
                prios@.len() == families@.len(),
                forall|i: int| 0 <= i < order@.len() ==> #[trigger] order@[i] < families@.len(),
                forall|i: int|
                    0 <= i < families@.len() ==> (#[trigger] families@[i]).rule < w.rules.len(),
                earley_rank::inserted(w, families@, prios@, given, x) == earley_rank::inserted(
                    w,
                    families@,
                    prios@,
                    order@,
                    x,
                ) + tail@.reverse(),
            decreases order.len(),
        {
            let ghost before = order@;
            let ghost t0 = tail@;
            let last: usize = order.len() - 1;
            let y: usize = order[last];
            order.truncate(last);
            tail.push(y);
            proof {
                assert(order@ =~= before.drop_last());
                assert(tail@.reverse() =~= seq![y] + t0.reverse());
                assert(earley_rank::inserted(w, families@, prios@, before, x) + t0.reverse()
                    =~= earley_rank::inserted(w, families@, prios@, order@, x) + tail@.reverse());
            }
        }
        let ghost base = order@;
        order.push(x);
        proof {
            assert(earley_rank::inserted(w, families@, prios@, base, x) == order@);
        }
        while tail.len() > 0
            invariant
                earley_rank::inserted(w, families@, prios@, given, x) == order@ + tail@.reverse(),
            decreases tail.len(),
        {
            let ghost t0 = tail@;
            let ghost o0 = order@;
            let last: usize = tail.len() - 1;
            let y: usize = tail[last];
            tail.truncate(last);
            order.push(y);
            proof {
                assert(tail@ =~= t0.drop_last());
                assert(t0.reverse() =~= seq![y] + tail@.reverse());
                assert(order@ + tail@.reverse() =~= o0 + t0.reverse());
            }
        }
        proof {
            assert(tail@.reverse() =~= Seq::empty());
            assert(order@ + tail@.reverse() =~= order@);
        }
    }

    fn goes_before(&self, families: &Vec<Packed>, prios: &Vec<i64>, a: usize, b: usize) -> (r: bool)
        requires
            a < families@.len(),
            b < families@.len(),
            prios@.len() == families@.len(),
            families@[a as int].rule < self.walk().rules.len(),
            families@[b as int].rule < self.walk().rules.len(),
        ensures
            r == earley_rank::tried_before(
                self.walk(),
                families@,
                prios@,
                a as int,
                b as int,
            ),
    {
        let pa = families[a];
        let pb = families[b];
        proof {
            assert(self.walk().rules[pa.rule as int] == self.grammar.rules@[pa.rule as int]@);
            assert(self.walk().rules[pb.rule as int] == self.grammar.rules@[pb.rule as int]@);
        }
        let ea = pa.left == ForestRef::Nothing && pa.right == ForestRef::Nothing;
        let eb = pb.left == ForestRef::Nothing && pb.right == ForestRef::Nothing;
        if ea != eb {
            !ea
        } else if prios[a] != prios[b] {
            prios[a] > prios[b]
        } else {
            self.grammar.rules[pa.rule].order < self.grammar.rules[pb.rule].order
        }
    }

    /// Finds out whether a node has a single derivation. The nodes being looked
    /// at are kept on a stack of their own.
    #[verifier::rlimit(80)]
    fn single_deriv(&self, id: usize, single: &mut Vec<Option<bool>>, visiting: &mut Vec<bool>)
        requires
            walk_ok(self.walk()),
            old(single)@.len() == self.walk().forest.nodes.len(),
            old(visiting)@.len() == old(single)@.len(),
            id < old(single)@.len(),
        ensures
            final(single)@ == earley_rank::single_known(
                self.walk(),
                id as int,
                old(single)@,
                old(visiting)@,
            ),
            final(single)@.len() == old(single)@.len(),
            final(visiting)@ == old(visiting)@,
    {
        let ghost w = self.walk();
        let ghost v0 = visiting@;
        let ghost goal = earley_rank::single_known(w, id as int, single@, v0);
        let mut stack: Vec<Looking> = Vec::new();
        let ghost depth: nat = bits::missing(v0) + 1;
        proof {
            reveal_with_fuel(all_known, 2);
        }
        self.look(id, single, visiting, &mut stack, Ghost(v0));
        while stack.len() > 0
            invariant
                w == self.walk(),
                walk_ok(w),
                v0 == old(visiting)@,
                v0.len() == w.forest.nodes.len(),
                visiting@.len() == w.forest.nodes.len(),
                single@.len() == w.forest.nodes.len(),
                depth == bits::missing(v0) + 1,
                looking_ok(w, stack@, visiting@, v0),
                all_known(w, stack@, single@, visiting@) == goal,
            decreases steps::measure(looks_left(stack@), 4, depth, 0),
        {
            let ghost s0 = stack@;
            let ghost given = looks_left(s0);
            let ghost k0 = single@;
            let ghost vis = visiting@;
            let ghost last: int = s0.len() - 1;
            proof {
                lemma_looking_depth(w, s0, vis, v0);
                assert(given[last] == 3 - s0[last].seen);
            }
            if let Some(f) = stack.pop() {
                let node = &self.forest.nodes[f.id];
                proof {
                    assert(w.forest.nodes[f.id as int] == node@);
                    assert(earley_forest::families_ok(
                        w.forest,
                        w.rules.len(),
                        w.forest.nodes[f.id as int],
                    ));
                    assert(earley_forest::packed_ok(
                        w.forest,
                        w.rules.len(),
                        w.forest.nodes[f.id as int].families[0],
                    ));
                }
                let p = node.families[0];
                if f.seen >= 2 {
                    visiting.set(f.id, false);
                    if single[f.id].is_none() {
                        let ok = is_single_part(single, p.left) && is_single_part(single, p.right);
                        single.set(f.id, Some(ok));
                    }
                    proof {
                        assert(visiting@ =~= vis.update(f.id as int, false));
                        assert(stack@ =~= s0.drop_last());
                        assert(looks_left(stack@)[last] == 0);
                    }
                } else {
                    let part = if f.seen == 0 {
                        p.right
                    } else {
                        p.left
                    };
                    let next = Looking { id: f.id, seen: f.seen + 1 };
                    stack.push(next);
                    let ghost s1 = stack@;
                    proof {
                        assert(s1.drop_last() =~= s0.drop_last());
                        assert(looking_ok(w, s1, vis, v0));
                        assert(all_known(w, s0, k0, vis) == all_known(
                            w,
                            s1,
                            earley_rank::ref_single_known(w, part, k0, vis),
                            vis,
                        ));
                        assert(looks_left(s1)[last] == 3 - next.seen);
                    }
                    if let ForestRef::Node(c) = part {
                        self.look(c, single, visiting, &mut stack, Ghost(v0));
                        proof {
                            assert(stack@[last] == s1[last]);
                            assert(looks_left(stack@)[last] == 3 - next.seen);
                        }
                    }
                }
            }
            proof {
                let t = looks_left(stack@);
                lemma_looking_depth(w, stack@, visiting@, v0);
                assert forall|j: int| 0 <= j < last implies given[j] == #[trigger] t[j] by {
                    assert(stack@[j] == s0[j]);
                }
                assert(steps::is_less(t, given, last));
                assert(steps::is_bounded(t, 4, depth));
                steps::lemma_less(t, given, 4, depth, last);
            }
        }
        proof {
            assert(stack@.len() == 0);
        }
    }

    /// Decides a node at once, or opens it.
    fn look(
        &self,
        c: usize,
        single: &mut Vec<Option<bool>>,
        visiting: &mut Vec<bool>,
        stack: &mut Vec<Looking>,
        Ghost(v0): Ghost<Seq<bool>>,
    )
        requires
            walk_ok(self.walk()),
            old(single)@.len() == self.walk().forest.nodes.len(),
            old(visiting)@.len() == old(single)@.len(),
            c < old(single)@.len(),
            looking_ok(self.walk(), old(stack)@, old(visiting)@, v0),
        ensures
            final(single)@.len() == old(single)@.len(),
            final(visiting)@.len() == old(visiting)@.len(),
            looking_ok(self.walk(), final(stack)@, final(visiting)@, v0),
            old(stack)@.len() <= final(stack)@.len(),
            forall|i: int|
                0 <= i < old(stack)@.len() ==> #[trigger] final(stack)@[i] == old(stack)@[i],
            all_known(self.walk(), final(stack)@, final(single)@, final(visiting)@) == all_known(
                self.walk(),
                old(stack)@,
                earley_rank::single_known(
                    self.walk(),
                    c as int,
                    old(single)@,
                    old(visiting)@,
                ),
                old(visiting)@,
            ),
    {
        let ghost w = self.walk();
        let ghost vis = visiting@;
        let ghost s0 = stack@;
        if single[c].is_some() {
            return;
        }
        let node = &self.forest.nodes[c];
        proof {
            assert(w.forest.nodes[c as int] == node@);
        }
        if visiting[c] || node.families.len() != 1 {
            single.set(c, Some(false));
            return;
        }
        stack.push(Looking { id: c, seen: 0 });
        visiting.set(c, true);
        proof {
            assert(stack@.drop_last() =~= s0);
            assert(visiting@.update(c as int, false) =~= vis);
        }
    }
}

fn is_single_part(single: &Vec<Option<bool>>, r: ForestRef) -> (b: bool)
    requires
        match r {
            ForestRef::Node(c) => c < single@.len(),
            _ => true,
        },
    ensures
        b == earley_rank::ref_single(single@, r),
{
    match r {
        ForestRef::Node(c) => match single[c] {
            Some(x) => x,
            None => false,
        },
        _ => true,
    }
}

/// The content of an optional slot.
pub open spec fn slot_option(v: Option<Slot>) -> Option<tree_builder::SlotModel> {
    match v {
        Some(x) => Some(x@),
        None => None,
    }
}

/// An optional index as a mathematical value.
pub open spec fn index_option(v: Option<usize>) -> Option<int> {
    match v {
        Some(x) => Some(x as int),
        None => None,
    }
}

/// Whether `b` is `a` with more behind it.
pub open spec fn continues(a: Seq<Child>, b: Seq<Child>) -> bool {
    a.len() <= b.len() && b.take(a.len() as int) == a
}

/// The contents of a buffer.
pub open spec fn buffer_of(nodes: Seq<Child>, span: ContainerSpan) -> Buffer {
    Buffer { nodes: tree::child_nodes(nodes), span }
}

proof fn lemma_continues_trans(a: Seq<Child>, b: Seq<Child>, c: Seq<Child>)
    requires
        continues(a, b),
        continues(b, c),
    ensures
        continues(a, c),
{
    assert(c.take(a.len() as int) =~= b.take(a.len() as int));
}

/// The contents of lists of values.
pub open spec fn list_models(s: Seq<Vec<Slot>>) -> Seq<Seq<tree_builder::SlotModel>> {
    Seq::new(s.len(), |i: int| tree_builder::slot_models(s[i]@))
}

fn push_absents(out: &mut Vec<Child>, n: usize)
    ensures
        tree::child_nodes(final(out)@) == tree::child_nodes(old(out)@) + tree_builder::absents(
            n as nat,
        ),
        continues(old(out)@, final(out)@),
{
    let ghost before = out@;
    let mut i: usize = 0;
    proof {
        assert(tree::child_nodes(out@) =~= tree::child_nodes(before) + tree_builder::absents(0));
        assert(out@.take(before.len() as int) =~= before);
    }
    while i < n
        invariant
            i <= n,
            tree::child_nodes(out@) == tree::child_nodes(before) + tree_builder::absents(i as nat),
            continues(before, out@),
        decreases n - i,
    {
        let ghost mid = out@;
        let c = Child::Absent;
        proof {
            assert(c@ == tree::Node::Absent);
        }
        push_child(out, c);
        proof {
            assert(tree::child_nodes(out@) =~= tree::child_nodes(before) + tree_builder::absents(
                (i + 1) as nat,
            ));
            lemma_continues_trans(before, mid, out@);
        }
        i = i + 1;
    }
}

fn push_children(out: &mut Vec<Child>, cs: Vec<Child>)
    ensures
        tree::child_nodes(final(out)@) == tree::child_nodes(old(out)@) + tree::child_nodes(cs@),
        continues(old(out)@, final(out)@),
{
    let ghost before = out@;
    let ghost given = cs@;
    let mut cs = cs;
    out.append(&mut cs);
    proof {
        assert(out@ =~= before + given);
        assert(tree::child_nodes(out@) =~= tree::child_nodes(before) + tree::child_nodes(given));
        assert(out@.take(before.len() as int) =~= before);
    }
}

fn push_child(out: &mut Vec<Child>, c: Child)
    ensures
        tree::child_nodes(final(out)@) == tree::child_nodes(old(out)@).push(c@),
        continues(old(out)@, final(out)@),
{
    let ghost before = out@;
    out.push(c);
    proof {
        assert(tree::child_nodes(out@) =~= tree::child_nodes(before).push(c@));
        assert(out@.take(before.len() as int) =~= before);
    }
}

// ---------------------------------------------------------------------------
// One derivation, step by step

/// What becomes of the children of a node.
enum How {
    /// They stay in the buffer, and the last symbol of the family follows.
    Left,
    /// They stay in the buffer, with the marks of the rule's end.
    Splice,
    /// They make the value of the node, which joins the buffer that was put
    /// aside.
    Value(Vec<Child>, ContainerSpan, usize),
}

/// A node whose families are being tried.
struct Open {
    id: usize,
    order: Vec<usize>,
    /// The place of the family that is tried, in the order.
    k: usize,
    /// How many parts of the family were begun.
    begun: usize,
    /// The buffer before the node.
    mark: usize,
    held: ContainerSpan,
    start: Ghost<Seq<Child>>,
    before: Vec<usize>,
    how: How,
}

/// What a walk does next.
#[derive(Clone, Copy)]
enum Turn {
    /// Begin a node.
    Enter(usize),
    /// Try the family of the innermost open node.
    Family,
    /// Add the last symbol of that family.
    Right,
    /// End that family, built or not.
    Settled(bool),
    /// End a node, with the rule of its derivation.
    Returned(Option<usize>),
}

/// A walk under way.
struct Course {
    stack: Vec<Open>,
    turn: Turn,
    how: How,
    nodes: Vec<Child>,
    span: ContainerSpan,
}

/// The content of what becomes of a node.
ghost enum HowModel {
    Left,
    Splice,
    Value(Buffer, int),
}

/// The content of an open node.
ghost struct OpenModel {
    id: int,
    order: Seq<usize>,
    k: nat,
    start: Buffer,
    before: Seq<usize>,
    how: HowModel,
}

spec fn how_model(h: How) -> HowModel {
    match h {
        How::Left => HowModel::Left,
        How::Splice => HowModel::Splice,
        How::Value(nodes, span, id) => HowModel::Value(buffer_of(nodes@, span), id as int),
    }
}

spec fn open_model(f: Open) -> OpenModel {
    OpenModel {
        id: f.id as int,
        order: f.order@,
        k: f.k as nat,
        start: buffer_of(f.start@, f.held),
        before: f.before@,
        how: how_model(f.how),
    }
}

spec fn open_models(s: Seq<Open>) -> Seq<OpenModel> {
    Seq::new(s.len(), |i: int| open_model(s[i]))
}

/// The family that an open node tries.
spec fn family_of(w: earley_rank::Walk, f: OpenModel) -> Packed {
    w.forest.nodes[f.id].families[f.order[f.k as int] as int]
}

/// What is found once a node that the innermost open node waits for has ended.
spec fn returned(
    w: earley_rank::Walk,
    stack: Seq<OpenModel>,
    how: HowModel,
    r: Option<int>,
    b: Buffer,
    m: earley_rank::Found,
    visiting: Seq<bool>,
) -> (Option<int>, Buffer, earley_rank::Found)
    decreases stack.len(), 1nat,
{
    if stack.len() == 0 {
        (r, b, m)
    } else {
        let p = family_of(w, stack.last());
        match how {
            HowModel::Left => if r is None {
                settled(w, stack, false, b, m, visiting)
            } else {
                let (ok, b1, m1) = right_appended(w, p, b, m, visiting);
                settled(w, stack, ok, b1, m1, visiting)
            },
            HowModel::Splice => match r {
                None => settled(w, stack, false, b, m, visiting),
                Some(rule) => {
                    let b1 = Buffer {
                        nodes: b.nodes + tree_builder::trailing_absents(w.rules[rule]),
                        ..b
                    };
                    settled(w, stack, true, b1, m, visiting)
                },
            },
            HowModel::Value(kept, id) => match r {
                None => settled(w, stack, false, kept, m, visiting),
                Some(rule) => {
                    let v = tree_builder::shaped(w.rules[rule], w.pp, b.nodes, b.span);
                    let m0 = built_counted(m, built::shape_built(w.rules[rule], b.nodes));
                    let m1 = if m0.seen[id] {
                        earley_rank::Found { values: m0.values.update(id, Some(v)), ..m0 }
                    } else {
                        earley_rank::Found { seen: m0.seen.update(id, true), ..m0 }
                    };
                    let b1 = with_value(w, kept, p.rule as int, p.right_pos as int, v);
                    settled(w, stack, true, b1, m1, visiting)
                },
            },
        }
    }
}

/// What is found once the family of the innermost open node has ended.
spec fn settled(
    w: earley_rank::Walk,
    stack: Seq<OpenModel>,
    ok: bool,
    b: Buffer,
    m: earley_rank::Found,
    visiting: Seq<bool>,
) -> (Option<int>, Buffer, earley_rank::Found)
    decreases stack.len(), 0nat,
{
    if stack.len() == 0 {
        (None, b, m)
    } else {
        let f = stack.last();
        let (r, b1, m1) = if ok {
            (Some(family_of(w, f).rule as int), b, m)
        } else {
            families_tried(w, f.id, f.order, f.k + 1, f.start, m, visiting)
        };
        returned(
            w,
            stack.drop_last(),
            f.how,
            r,
            b1,
            earley_rank::left(m1, f.id, f.before),
            visiting.update(f.id, false),
        )
    }
}

/// What a walk under way finds.
spec fn outcome(
    w: earley_rank::Walk,
    c: Course,
    m: earley_rank::Found,
    visiting: Seq<bool>,
) -> (Option<int>, Buffer, earley_rank::Found) {
    let stack = open_models(c.stack@);
    let b = buffer_of(c.nodes@, c.span);
    let how = how_model(c.how);
    match c.turn {
        Turn::Enter(id) => {
            let (r, b1, m1) = rule_appended(w, id as int, b, m, visiting);
            returned(w, stack, how, r, b1, m1, visiting)
        },
        Turn::Family => {
            let f = stack.last();
            let (r, b1, m1) = families_tried(w, f.id, f.order, f.k, f.start, m, visiting);
            returned(
                w,
                stack.drop_last(),
                f.how,
                r,
                b1,
                earley_rank::left(m1, f.id, f.before),
                visiting.update(f.id, false),
            )
        },
        Turn::Right => {
            let (ok, b1, m1) = right_appended(w, family_of(w, stack.last()), b, m, visiting);
            settled(w, stack, ok, b1, m1, visiting)
        },
        Turn::Settled(ok) => settled(w, stack, ok, b, m, visiting),
        Turn::Returned(r) => returned(w, stack, how, index_option(r), b, m, visiting),
    }
}

/// The buffer that a walk goes on with once a node has ended.
spec fn kept_nodes(how: How, nodes: Seq<Child>) -> Seq<Child> {
    match how {
        How::Value(kept, _, _) => kept@,
        _ => nodes,
    }
}

/// Whether open nodes are in order over a buffer: each is being visited and
/// began within the buffer, and without them the walk is where it began.
spec fn stack_ok(
    w: earley_rank::Walk,
    s: Seq<Open>,
    nodes: Seq<Child>,
    visiting: Seq<bool>,
    n0: Seq<Child>,
    v0: Seq<bool>,
) -> bool
    decreases s.len(),
{
    if s.len() == 0 {
        continues(n0, nodes) && visiting == v0
    } else {
        let f = s.last();
        &&& f.id < w.forest.nodes.len()
        &&& visiting.len() == w.forest.nodes.len()
        &&& visiting[f.id as int]
        &&& f.k <= f.order@.len()
        &&& f.order@.len() == w.forest.nodes[f.id as int].families.len()
        &&& forall|i: int|
            0 <= i < f.order@.len() ==> #[trigger] f.order@[i]
                < w.forest.nodes[f.id as int].families.len()
        &&& f.begun <= 2
        &&& f.mark == f.start@.len()
        &&& continues(f.start@, nodes)
        &&& f.how matches How::Value(_, _, id) ==> id < w.forest.nodes.len()
        &&& s.len() == 1 ==> f.how is Left
        &&& s.len() > 1 ==> s[s.len() - 2].k < s[s.len() - 2].order@.len()
        &&& s.len() > 1 && f.how is Left ==> s[s.len() - 2].begun <= 1
        &&& stack_ok(
            w,
            s.drop_last(),
            kept_nodes(f.how, f.start@),
            visiting.update(f.id as int, false),
            n0,
            v0,
        )
    }
}

/// Whether a walk under way is in order.
spec fn course_ok(
    w: earley_rank::Walk,
    c: Course,
    visiting: Seq<bool>,
    n0: Seq<Child>,
    v0: Seq<bool>,
) -> bool {
    &&& v0.len() == w.forest.nodes.len()
    &&& visiting.len() == w.forest.nodes.len()
    &&& stack_ok(w, c.stack@, kept_nodes(c.how, c.nodes@), visiting, n0, v0)
    &&& c.how matches How::Value(_, _, id) ==> id < w.forest.nodes.len()
    &&& match c.turn {
        Turn::Enter(id) => id < w.forest.nodes.len() && is_busy(c.stack@) && (c.stack@.len() == 0
            ==> c.how is Left),
        Turn::Family => c.stack@.len() > 0 && c.stack@.last().begun == 0 && c.how is Left
            && c.nodes@ == c.stack@.last().start@ && c.span == c.stack@.last().held,
        Turn::Right => c.stack@.len() > 0 && is_busy(c.stack@) && c.stack@.last().begun <= 1
            && c.how is Left,
        Turn::Settled(_) => c.stack@.len() > 0 && is_busy(c.stack@) && c.how is Left,
        Turn::Returned(r) => is_busy(c.stack@) && (r matches Some(x) ==> x < w.rules.len()) && (
        c.stack@.len() == 0 ==> c.how is Left) && (c.how is Left && c.stack@.len() > 0
            ==> c.stack@.last().begun <= 1),
    }
    &&& c.turn is Enter && c.how is Left && c.stack@.len() > 0 ==> c.stack@.last().begun <= 1
}

/// Whether the innermost open node tries a family.
spec fn is_busy(s: Seq<Open>) -> bool {
    s.len() > 0 ==> s.last().k < s.last().order@.len()
}

/// What is left to do at an open node.
spec fn open_left(f: Open) -> nat {
    ((f.order@.len() - f.k) * 3 + (2 - f.begun) + 10) as nat
}

/// More than is left to do at any open node.
spec fn most_left() -> nat {
    3 * usize::MAX as nat + 20
}

spec fn turn_left(t: Turn) -> nat {
    match t {
        Turn::Enter(_) => (most_left() - 1) as nat,
        Turn::Returned(_) => 8,
        Turn::Family => 7,
        Turn::Right => 6,
        Turn::Settled(_) => 5,
    }
}

/// What is left to do, level by level.
spec fn course_left(c: Course) -> Seq<nat> {
    Seq::new(c.stack@.len(), |i: int| open_left(c.stack@[i])).push(turn_left(c.turn))
}

/// An open node hides one more node from the walk.
proof fn lemma_stack_depth(
    w: earley_rank::Walk,
    s: Seq<Open>,
    nodes: Seq<Child>,
    visiting: Seq<bool>,
    n0: Seq<Child>,
    v0: Seq<bool>,
)
    requires
        stack_ok(w, s, nodes, visiting, n0, v0),
    ensures
        bits::missing(visiting) + s.len() <= bits::missing(v0),
        forall|i: int| 0 <= i < s.len() ==> open_left(#[trigger] s[i]) < most_left() - 1,
    decreases s.len(),
{
    if s.len() > 0 {
        let f = s.last();
        let outer = visiting.update(f.id as int, false);
        lemma_stack_depth(w, s.drop_last(), kept_nodes(f.how, f.start@), outer, n0, v0);
        empty_values::lemma_visit(outer, f.id as int);
        assert(outer.update(f.id as int, true) =~= visiting);
        assert(f.order@.len() == f.order.len());
        assert forall|i: int| 0 <= i < s.len() implies open_left(#[trigger] s[i]) < most_left()
            - 1 by {
            if i < s.len() - 1 {
                assert(s[i] == s.drop_last()[i]);
            }
        }
    }
}

proof fn lemma_stack_grows(
    w: earley_rank::Walk,
    s: Seq<Open>,
    a: Seq<Child>,
    b: Seq<Child>,
    visiting: Seq<bool>,
    n0: Seq<Child>,
    v0: Seq<bool>,
)
    requires
        stack_ok(w, s, a, visiting, n0, v0),
        continues(a, b),
    ensures
        stack_ok(w, s, b, visiting, n0, v0),
{
    if s.len() == 0 {
        lemma_continues_trans(n0, a, b);
    } else {
        lemma_continues_trans(s.last().start@, a, b);
    }
}

/// Open nodes with the innermost one changed at the same node.
proof fn lemma_stack_again(
    w: earley_rank::Walk,
    s: Seq<Open>,
    f: Open,
    nodes: Seq<Child>,
    visiting: Seq<bool>,
    n0: Seq<Child>,
    v0: Seq<bool>,
)
    requires
        s.len() > 0,
        stack_ok(w, s, nodes, visiting, n0, v0),
        f.id == s.last().id,
        f.order == s.last().order,
        f.mark == s.last().mark,
        f.held == s.last().held,
        f.start == s.last().start,
        f.before == s.last().before,
        f.how == s.last().how,
        f.k <= f.order@.len(),
        f.begun <= 2,
    ensures
        stack_ok(w, s.drop_last().push(f), nodes, visiting, n0, v0),
        open_models(s.drop_last().push(f)).drop_last() == open_models(s).drop_last(),
{
    let t = s.drop_last().push(f);
    assert(t.drop_last() =~= s.drop_last());
    assert(open_models(t).drop_last() =~= open_models(s).drop_last());
    if s.len() > 1 {
        assert(t[t.len() - 2] == s[s.len() - 2]);
    }
}

proof fn lemma_models_pop(s: Seq<Open>)
    requires
        s.len() > 0,
    ensures
        open_models(s).drop_last() == open_models(s.drop_last()),
        open_models(s).last() == open_model(s.last()),
{
    assert(open_models(s).drop_last() =~= open_models(s.drop_last()));
}

// ---------------------------------------------------------------------------
// All derivations, step by step

/// What becomes of the derivations of a node.
#[derive(Clone, Copy)]
enum Use {
    /// They are the values of the symbol.
    Plain,
    /// Side by side they are the value of the symbol.
    Beside(usize),
}

/// A node whose families are being expanded: all of a node, or a part of a rule.
struct Wide {
    id: usize,
    order: Vec<usize>,
    /// The place of the family that is expanded, in the order.
    k: usize,
    /// How many parts of the family were begun.
    begun: usize,
    before: Vec<usize>,
    whole: bool,
    /// The lists of a part, so far.
    out: Vec<Vec<Slot>>,
    /// The derivations of a node, so far.
    ds: Vec<Slot>,
    /// The lists that the last symbol of the family goes behind.
    lefts: Vec<Vec<Slot>>,
    usage: Use,
}

/// What an expansion does next.
enum Next {
    /// Begin a node, or a part of a rule.
    Enter(usize, bool),
    /// Expand the family of the innermost open node.
    Family,
    /// Expand the last symbol of that family.
    Right,
    /// End that family with its lists.
    Lists(Vec<Vec<Slot>>),
    /// End a part of a rule with its lists.
    Out(Vec<Vec<Slot>>),
    /// End a node with its derivations.
    Values(Vec<Slot>),
}

/// An expansion under way.
struct Sweep {
    stack: Vec<Wide>,
    next: Next,
    usage: Use,
}

/// The content of an open node.
ghost struct WideModel {
    id: int,
    order: Seq<usize>,
    k: nat,
    before: Seq<usize>,
    whole: bool,
    out: Seq<Seq<tree_builder::SlotModel>>,
    ds: Seq<tree_builder::SlotModel>,
    lefts: Seq<Seq<tree_builder::SlotModel>>,
    usage: Use,
}

spec fn wide_model(f: Wide) -> WideModel {
    WideModel {
        id: f.id as int,
        order: f.order@,
        k: f.k as nat,
        before: f.before@,
        whole: f.whole,
        out: list_models(f.out@),
        ds: tree_builder::slot_models(f.ds@),
        lefts: list_models(f.lefts@),
        usage: f.usage,
    }
}

spec fn wide_models(s: Seq<Wide>) -> Seq<WideModel> {
    Seq::new(s.len(), |i: int| wide_model(s[i]))
}

/// The family that an open node expands.
spec fn wide_family(w: earley_rank::Walk, f: WideModel) -> Packed {
    w.forest.nodes[f.id].families[f.order[f.k as int] as int]
}

/// The lists of a part once the families from `k` on are expanded.
spec fn expanded_from(
    w: earley_rank::Walk,
    id: int,
    order: Seq<usize>,
    k: nat,
    out: Seq<Seq<tree_builder::SlotModel>>,
    m: earley_rank::Found,
    visiting: Seq<bool>,
) -> (Seq<Seq<tree_builder::SlotModel>>, earley_rank::Found)
    decreases order.len() - k,
{
    if k >= order.len() {
        (out, m)
    } else {
        let p = w.forest.nodes[id].families[order[k as int] as int];
        let (lists, m1) = packed_expanded(w, p, m, visiting);
        expanded_from(w, id, order, k + 1, out + lists, m1, visiting)
    }
}

/// The derivations of a node once the families from `k` on are expanded.
spec fn derived_from(
    w: earley_rank::Walk,
    id: int,
    order: Seq<usize>,
    k: nat,
    ds: Seq<tree_builder::SlotModel>,
    m: earley_rank::Found,
    visiting: Seq<bool>,
) -> (Seq<tree_builder::SlotModel>, earley_rank::Found)
    decreases order.len() - k,
{
    if k >= order.len() {
        (ds, m)
    } else {
        let p = w.forest.nodes[id].families[order[k as int] as int];
        let (lists, m1) = packed_expanded(w, p, m, visiting);
        let all = outcomes_added(w, p.rule as int, ds, lists, lists.len());
        let m2 = outcomes_counted(
            m1,
            lists_size(lists, lists.len()),
            (all.len() - ds.len()) as nat,
            lists_built(w, p.rule as int, lists, lists.len()),
        );
        derived_from(w, id, order, k + 1, all, m2, visiting)
    }
}

proof fn lemma_from(
    w: earley_rank::Walk,
    id: int,
    order: Seq<usize>,
    k: nat,
    m: earley_rank::Found,
    visiting: Seq<bool>,
)
    requires
        k <= order.len(),
    ensures
        ({
            let (out, m1) = families_expanded(w, id, order, k, m, visiting);
            expanded_from(w, id, order, k, out, m1, visiting) == families_expanded(
                w,
                id,
                order,
                order.len(),
                m,
                visiting,
            )
        }),
        ({
            let (ds, m1) = families_derived(w, id, order, k, m, visiting);
            derived_from(w, id, order, k, ds, m1, visiting) == families_derived(
                w,
                id,
                order,
                order.len(),
                m,
                visiting,
            )
        }),
    decreases order.len() - k,
{
    if k < order.len() {
        lemma_from(w, id, order, k + 1, m, visiting);
    }
}

/// The open node with the lists of its family taken in.
spec fn taken_in(
    w: earley_rank::Walk,
    f: WideModel,
    ls: Seq<Seq<tree_builder::SlotModel>>,
    m: earley_rank::Found,
) -> (WideModel, earley_rank::Found) {
    if f.whole {
        let all = outcomes_added(w, wide_family(w, f).rule as int, f.ds, ls, ls.len());
        (
            WideModel { ds: all, k: f.k + 1, ..f },
            outcomes_counted(
                m,
                lists_size(ls, ls.len()),
                (all.len() - f.ds.len()) as nat,
                lists_built(w, wide_family(w, f).rule as int, ls, ls.len()),
            ),
        )
    } else {
        (WideModel { out: f.out + ls, k: f.k + 1, ..f }, m)
    }
}

/// What is found once the families left of an open node are expanded.
spec fn node_swept(
    w: earley_rank::Walk,
    rest: Seq<WideModel>,
    f: WideModel,
    m: earley_rank::Found,
    visiting: Seq<bool>,
) -> (Seq<tree_builder::SlotModel>, earley_rank::Found)
    decreases rest.len(), 2nat,
{
    let outer = visiting.update(f.id, false);
    if f.whole {
        let (ds, m1) = derived_from(w, f.id, f.order, f.k, f.ds, m, visiting);
        let m2 = earley_rank::left(
            children_counted(m1, values_size(ds, ds.len())),
            f.id,
            f.before,
        );
        let m3 = if m2.hits.len() == f.before.len() {
            earley_rank::Found { derivs: m2.derivs.update(f.id, Some(ds)), ..m2 }
        } else {
            m2
        };
        values_swept(w, rest, f.usage, ds, m3, outer)
    } else {
        let (out, m1) = expanded_from(w, f.id, f.order, f.k, f.out, m, visiting);
        out_swept(w, rest, out, earley_rank::left(m1, f.id, f.before), outer)
    }
}

/// What is found once a part of a rule has ended with its lists.
spec fn out_swept(
    w: earley_rank::Walk,
    stack: Seq<WideModel>,
    lists: Seq<Seq<tree_builder::SlotModel>>,
    m: earley_rank::Found,
    visiting: Seq<bool>,
) -> (Seq<tree_builder::SlotModel>, earley_rank::Found)
    decreases stack.len(), 1nat,
{
    if stack.len() == 0 {
        (Seq::empty(), m)
    } else if lists.len() == 0 {
        lists_swept(w, stack, Seq::empty(), m, visiting)
    } else {
        let (ls, m1) = right_expanded(w, wide_family(w, stack.last()), lists, m, visiting);
        lists_swept(w, stack, ls, m1, visiting)
    }
}

/// The values of a symbol whose derivations stand side by side.
spec fn used_beside(
    id: int,
    found: (Seq<tree_builder::SlotModel>, earley_rank::Found),
) -> (Seq<tree_builder::SlotModel>, earley_rank::Found) {
    let (ds, m) = found;
    match side_by_side(ds) {
        None => (Seq::empty(), m),
        Some(v) => (
            seq![v],
            if m.derivs[id] is Some {
                earley_rank::Found { values: m.values.update(id, Some(v)), ..m }
            } else {
                m
            },
        ),
    }
}

/// What is found once a node has ended with its derivations.
spec fn values_swept(
    w: earley_rank::Walk,
    stack: Seq<WideModel>,
    usage: Use,
    ds: Seq<tree_builder::SlotModel>,
    m: earley_rank::Found,
    visiting: Seq<bool>,
) -> (Seq<tree_builder::SlotModel>, earley_rank::Found)
    decreases stack.len(), 1nat,
{
    if stack.len() == 0 {
        (ds, m)
    } else {
        let (rights, m1) = match usage {
            Use::Plain => (ds, m),
            Use::Beside(id) => used_beside(id as int, (ds, m)),
        };
        let lefts = stack.last().lefts;
        lists_swept(
            w,
            stack,
            combined(lefts, rights, lefts.len()),
            copies_counted(m1, copies(lefts, rights.len(), lefts.len())),
            visiting,
        )
    }
}

/// What is found once the family of the innermost open node has ended.
spec fn lists_swept(
    w: earley_rank::Walk,
    stack: Seq<WideModel>,
    ls: Seq<Seq<tree_builder::SlotModel>>,
    m: earley_rank::Found,
    visiting: Seq<bool>,
) -> (Seq<tree_builder::SlotModel>, earley_rank::Found)
    decreases stack.len(), 0nat,
{
    if stack.len() == 0 {
        (Seq::empty(), m)
    } else {
        let (f, m1) = taken_in(w, stack.last(), ls, m);
        node_swept(w, stack.drop_last(), f, m1, visiting)
    }
}

/// What an expansion under way finds.
spec fn swept(
    w: earley_rank::Walk,
    c: Sweep,
    m: earley_rank::Found,
    visiting: Seq<bool>,
) -> (Seq<tree_builder::SlotModel>, earley_rank::Found) {
    let stack = wide_models(c.stack@);
    match c.next {
        Next::Enter(id, whole) => if whole {
            let (ds, m1) = derivations(w, id as int, m, visiting);
            values_swept(w, stack, c.usage, ds, m1, visiting)
        } else {
            let (ls, m1) = inter_expanded(w, id as int, m, visiting);
            out_swept(w, stack, ls, m1, visiting)
        },
        Next::Family => node_swept(w, stack.drop_last(), stack.last(), m, visiting),
        Next::Right => {
            let f = stack.last();
            let (ls, m1) = right_expanded(w, wide_family(w, f), f.lefts, m, visiting);
            lists_swept(w, stack, ls, m1, visiting)
        },
        Next::Lists(ls) => lists_swept(w, stack, list_models(ls@), m, visiting),
        Next::Out(ls) => out_swept(w, stack, list_models(ls@), m, visiting),
        Next::Values(ds) => values_swept(
            w,
            stack,
            c.usage,
            tree_builder::slot_models(ds@),
            m,
            visiting,
        ),
    }
}

/// Whether open nodes are in order: each is being visited, and without them the
/// expansion is where it began.
spec fn wide_ok(
    w: earley_rank::Walk,
    s: Seq<Wide>,
    visiting: Seq<bool>,
    v0: Seq<bool>,
) -> bool
    decreases s.len(),
{
    if s.len() == 0 {
        visiting == v0
    } else {
        let f = s.last();
        &&& f.id < w.forest.nodes.len()
        &&& visiting.len() == w.forest.nodes.len()
        &&& visiting[f.id as int]
        &&& f.k <= f.order@.len()
        &&& f.order@.len() == w.forest.nodes[f.id as int].families.len()
        &&& forall|i: int|
            0 <= i < f.order@.len() ==> #[trigger] f.order@[i]
                < w.forest.nodes[f.id as int].families.len()
        &&& f.begun <= 2
        &&& s.len() == 1 ==> f.whole
        &&& f.usage matches Use::Beside(id) ==> id < w.forest.nodes.len()
        &&& s.len() > 1 ==> s[s.len() - 2].k < s[s.len() - 2].order@.len()
        &&& s.len() > 1 && !f.whole ==> s[s.len() - 2].begun <= 1
        &&& wide_ok(w, s.drop_last(), visiting.update(f.id as int, false), v0)
    }
}

/// Whether the innermost open node expands a family.
spec fn is_wide_busy(s: Seq<Wide>) -> bool {
    s.len() > 0 ==> s.last().k < s.last().order@.len()
}

/// Whether the last symbol of the innermost family is still to come.
spec fn is_wide_early(s: Seq<Wide>) -> bool {
    s.len() > 0 && s.last().k < s.last().order@.len() && s.last().begun <= 1
}

/// Whether an expansion under way is in order.
spec fn sweep_ok(w: earley_rank::Walk, c: Sweep, visiting: Seq<bool>, v0: Seq<bool>) -> bool {
    &&& v0.len() == w.forest.nodes.len()
    &&& visiting.len() == w.forest.nodes.len()
    &&& wide_ok(w, c.stack@, visiting, v0)
    &&& c.usage matches Use::Beside(id) ==> id < w.forest.nodes.len()
    &&& match c.next {
        Next::Enter(id, whole) => id < w.forest.nodes.len() && if whole {
            is_wide_busy(c.stack@)
        } else {
            is_wide_early(c.stack@)
        },
        Next::Family => c.stack@.len() > 0 && c.stack@.last().begun == 0,
        Next::Right => is_wide_early(c.stack@),
        Next::Lists(_) => c.stack@.len() > 0 && is_wide_busy(c.stack@),
        Next::Out(_) => is_wide_early(c.stack@),
        Next::Values(_) => is_wide_busy(c.stack@),
    }
}

/// What is left to expand at an open node.
spec fn wide_left(f: Wide) -> nat {
    ((f.order@.len() - f.k) * 3 + (2 - f.begun) + 10) as nat
}

spec fn next_left(t: Next) -> nat {
    match t {
        Next::Enter(_, _) => (most_left() - 1) as nat,
        Next::Out(_) => 8,
        Next::Values(_) => 8,
        Next::Family => 7,
        Next::Right => 6,
        Next::Lists(_) => 5,
    }
}

/// What is left to expand, level by level.
spec fn sweep_left(c: Sweep) -> Seq<nat> {
    Seq::new(c.stack@.len(), |i: int| wide_left(c.stack@[i])).push(next_left(c.next))
}

proof fn lemma_wide_depth(
    w: earley_rank::Walk,
    s: Seq<Wide>,
    visiting: Seq<bool>,
    v0: Seq<bool>,
)
    requires
        wide_ok(w, s, visiting, v0),
    ensures
        bits::missing(visiting) + s.len() <= bits::missing(v0),
        forall|i: int| 0 <= i < s.len() ==> wide_left(#[trigger] s[i]) < most_left() - 1,
    decreases s.len(),
{
    if s.len() > 0 {
        let f = s.last();
        let outer = visiting.update(f.id as int, false);
        lemma_wide_depth(w, s.drop_last(), outer, v0);
        empty_values::lemma_visit(outer, f.id as int);
        assert(outer.update(f.id as int, true) =~= visiting);
        assert(f.order@.len() == f.order.len());
        assert forall|i: int| 0 <= i < s.len() implies wide_left(#[trigger] s[i]) < most_left()
            - 1 by {
            if i < s.len() - 1 {
                assert(s[i] == s.drop_last()[i]);
            }
        }
    }
}

/// Open nodes with the innermost one changed at the same node.
proof fn lemma_wide_again(
    w: earley_rank::Walk,
    s: Seq<Wide>,
    f: Wide,
    visiting: Seq<bool>,
    v0: Seq<bool>,
)
    requires
        s.len() > 0,
        wide_ok(w, s, visiting, v0),
        f.id == s.last().id,
        f.order == s.last().order,
        f.whole == s.last().whole,
        f.usage == s.last().usage,
        f.k <= f.order@.len(),
        f.begun <= 2,
    ensures
        wide_ok(w, s.drop_last().push(f), visiting, v0),
        wide_models(s.drop_last().push(f)).drop_last() == wide_models(s).drop_last(),
        wide_models(s.drop_last().push(f)).last() == wide_model(f),
{
    let t = s.drop_last().push(f);
    assert(t.drop_last() =~= s.drop_last());
    assert(wide_models(t).drop_last() =~= wide_models(s).drop_last());
    if s.len() > 1 {
        assert(t[t.len() - 2] == s[s.len() - 2]);
    }
}

/// Less is left where the innermost open node has less left, whatever comes
/// next.
proof fn lemma_wide_less(s: Seq<Wide>, c: Sweep, t: Next)
    requires
        s.len() > 0,
        c.stack@.len() == s.len(),
        c.stack@.drop_last() == s.drop_last(),
        wide_left(c.stack@.last()) < wide_left(s.last()),
    ensures
        steps::is_less(
            sweep_left(c),
            Seq::new(s.len(), |i: int| wide_left(s[i])).push(next_left(t)),
            s.len() - 1,
        ),
{
    let given = Seq::new(s.len(), |i: int| wide_left(s[i])).push(next_left(t));
    let now = sweep_left(c);
    let last = s.len() - 1;
    assert(now[last] == wide_left(c.stack@.last()));
    assert(given[last] == wide_left(s.last()));
    assert forall|j: int| 0 <= j < last implies given[j] == #[trigger] now[j] by {
        assert(c.stack@.drop_last()[j] == c.stack@[j]);
        assert(s.drop_last()[j] == s[j]);
        assert(now[j] == wide_left(c.stack@[j]));
    }
}

/// The lists that a symbol goes behind do not matter once the family has ended.
proof fn lemma_lefts(w: earley_rank::Walk, a: Seq<WideModel>, b: Seq<WideModel>)
    requires
        a.len() > 0,
        a.len() == b.len(),
        a.drop_last() == b.drop_last(),
        b.last() == (WideModel { lefts: b.last().lefts, ..a.last() }),
    ensures
        forall|
            ls: Seq<Seq<tree_builder::SlotModel>>,
            m: earley_rank::Found,
            visiting: Seq<bool>,
        |
            lists_swept(w, a, ls, m, visiting) == #[trigger] lists_swept(w, b, ls, m, visiting),
{
    assert forall|
        ls: Seq<Seq<tree_builder::SlotModel>>,
        m: earley_rank::Found,
        visiting: Seq<bool>,
    |
        lists_swept(w, a, ls, m, visiting) == #[trigger] lists_swept(w, b, ls, m, visiting) by {
        let x = taken_in(w, a.last(), ls, m);
        let y = taken_in(w, b.last(), ls, m);
        assert(y.0 == (WideModel { lefts: b.last().lefts, ..x.0 }));
    }
}

impl<'a> Transformer<'a> {
    fn is_transparent_node(&self, id: usize) -> (r: bool)
        requires
            walk_ok(self.walk()),
            id < self.walk().forest.nodes.len(),
        ensures
            r == is_transparent(self.walk(), id as int),
    {
        let ghost w = self.walk();
        let node = &self.forest.nodes[id];
        proof {
            assert(w.forest.nodes[id as int] == node@);
            assert(earley_forest::families_ok(w.forest, w.rules.len(), w.forest.nodes[id as int]));
        }
        if node.families.len() > 0 {
            let rule = node.families[0].rule;
            proof {
                assert(earley_forest::packed_ok(
                    w.forest,
                    w.rules.len(),
                    w.forest.nodes[id as int].families[0],
                ));
                assert(w.rules[rule as int] == self.grammar.rules@[rule as int]@);
            }
            self.grammar.rules[rule].transparent
        } else {
            false
        }
    }

    /// Adds the absent-optional marks before a position.
    fn push_nones_before(&self, rule: usize, gap: usize, nodes: &mut Vec<Child>)
        requires
            rule < self.walk().rules.len(),
        ensures
            tree::child_nodes(final(nodes)@) == tree::child_nodes(old(nodes)@)
                + tree_builder::absents(
                symbols::nones_at(self.walk().rules[rule as int], gap as int),
            ),
            continues(old(nodes)@, final(nodes)@),
    {
        proof {
            assert(self.walk().rules[rule as int] == self.grammar.rules@[rule as int]@);
        }
        let n: usize = self.grammar.rules[rule].nones_before(gap);
        push_absents(nodes, n);
    }

    /// Adds the value at a position of a rule.
    fn push_value(
        &self,
        rule: usize,
        pos: usize,
        v: Slot,
        nodes: &mut Vec<Child>,
        span: &mut ContainerSpan,
    )
        requires
            rule < self.walk().rules.len(),
        ensures
            buffer_of(final(nodes)@, *final(span)) == with_value(
                self.walk(),
                buffer_of(old(nodes)@, *old(span)),
                rule as int,
                pos as int,
                v@,
            ),
            continues(old(nodes)@, final(nodes)@),
    {
        let ghost w = self.walk();
        let ghost before = tree::child_nodes(nodes@);
        proof {
            assert(w.rules[rule as int] == self.grammar.rules@[rule as int]@);
            assert(nodes@.take(nodes@.len() as int) =~= nodes@);
        }
        match v {
            Slot::Token(t) => {
                if self.pp {
                    span.observe_token(&t);
                }
                if self.grammar.rules[rule].keep_token(pos) {
                    push_child(nodes, Child::Token(t));
                    proof {
                        assert(before.push(tree::Node::Token(t@)) =~= before + seq![
                            tree::Node::Token(t@),
                        ]);
                    }
                } else {
                    proof {
                        assert(before + Seq::empty() =~= before);
                    }
                }
            },
            Slot::Tree(t) => {
                if self.pp {
                    span.observe_meta(&t.meta);
                }
                proof {
                    tree::tree_node_children(t);
                    assert(before.push(t@) =~= before + seq![t@]);
                }
                push_child(nodes, Child::Tree(t));
            },
            Slot::Inline(cs) => {
                if self.pp {
                    let ghost s0 = *span;
                    let ghost ns = tree::child_nodes(cs@);
                    let mut i: usize = 0;
                    proof {
                        assert(ns.take(0) =~= Seq::empty());
                    }
                    while i < cs.len()
                        invariant
                            i <= cs@.len(),
                            ns == tree::child_nodes(cs@),
                            *span == tree_builder::observed_nodes(s0, ns.take(i as int)),
                        decreases cs.len() - i,
                    {
                        span.observe_child(&cs[i]);
                        proof {
                            assert(ns.take(i + 1).drop_last() =~= ns.take(i as int));
                            assert(ns.take(i + 1).last() == cs@[i as int]@);
                        }
                        i = i + 1;
                    }
                    proof {
                        assert(ns.take(ns.len() as int) =~= ns);
                    }
                }
                push_children(nodes, cs);
            },
        }
    }

    /// The value of a node, if it has one.
    #[verifier::rlimit(40)]
    fn eval(&self, id: usize, m: &mut Memos, visiting: &mut Vec<bool>) -> (r: Option<Slot>)
        requires
            walk_ok(self.walk()),
            fits(self.walk(), old(m)@),
            old(visiting)@.len() == self.walk().forest.nodes.len(),
            id < self.walk().forest.nodes.len(),
        ensures
            (slot_option(r), final(m)@) == node_value(
                self.walk(),
                id as int,
                old(m)@,
                old(visiting)@,
            ),
            fits(self.walk(), final(m)@),
            final(visiting)@ == old(visiting)@,
        decreases bits::missing(old(visiting)@), 3nat,
    {
        let ghost w = self.walk();
        let ghost m0 = m@;
        proof {
            assert(m0.values[id as int] is Some == m.values@[id as int] is Some);
        }
        if let Some(v) = &m.values[id] {
            return Some(copy_slot(v));
        }
        if self.resolve {
            let mut nodes: Vec<Child> = Vec::new();
            let mut span = ContainerSpan::new();
            proof {
                assert(tree::child_nodes(nodes@) =~= Seq::empty());
                assert(buffer_of(nodes@, span) == blank_buffer());
            }
            let found = self.append_rule(id, &mut nodes, &mut span, m, visiting);
            match found {
                None => None,
                Some(rule) => {
                    let builder = TreeOutputBuilder::with_propagate_positions(
                        &self.grammar.rules,
                        self.pp,
                    );
                    let built = builder.count_shape(
                        rule,
                        nodes.len(),
                        Ghost(tree::child_nodes(nodes@)),
                        m.work.built,
                    );
                    m.work = earley_rank::Work { built, ..m.work };
                    let v = builder.shape_with_container(rule, nodes, span);
                    let ghost m1 = m@;
                    if m.seen[id] {
                        m.values.set(id, Some(copy_slot(&v)));
                        proof {
                            assert(m@.values =~= m1.values.update(id as int, Some(v@)));
                        }
                    } else {
                        m.seen.set(id, true);
                    }
                    Some(v)
                },
            }
        } else {
            let ds = self.derivs(id, m, visiting);
            let ghost m1 = m@;
            let v = beside(ds);
            if let Some(x) = &v {
                if m.derivs[id].is_some() {
                    m.values.set(id, Some(copy_slot(x)));
                    proof {
                        assert(m@.values =~= m1.values.update(id as int, Some(x@)));
                    }
                }
            }
            v
        }
    }

    /// Adds the children of a transparent node.
    fn splice(
        &self,
        id: usize,
        nodes: &mut Vec<Child>,
        span: &mut ContainerSpan,
        m: &mut Memos,
        visiting: &mut Vec<bool>,
    ) -> (r: Option<usize>)
        requires
            walk_ok(self.walk()),
            fits(self.walk(), old(m)@),
            old(visiting)@.len() == self.walk().forest.nodes.len(),
            id < self.walk().forest.nodes.len(),
        ensures
            (index_option(r), buffer_of(final(nodes)@, *final(span)), final(m)@) == spliced(
                self.walk(),
                id as int,
                buffer_of(old(nodes)@, *old(span)),
                old(m)@,
                old(visiting)@,
            ),
            continues(old(nodes)@, final(nodes)@),
            fits(self.walk(), final(m)@),
            final(visiting)@ == old(visiting)@,
        decreases bits::missing(old(visiting)@), 4nat,
    {
        let ghost w = self.walk();
        let ghost n0 = nodes@;
        let found = self.append_rule(id, nodes, span, m, visiting);
        if let Some(rule) = found {
            let ghost n1 = nodes@;
            proof {
                assert(w.rules[rule as int] == self.grammar.rules@[rule as int]@);
            }
            push_absents(nodes, self.grammar.rules[rule].options.placeholder_count);
            let ghost n2 = nodes@;
            self.push_nones_before(rule, self.grammar.rules[rule].expansion.len(), nodes);
            proof {
                assert(tree::child_nodes(nodes@) =~= tree::child_nodes(n1)
                    + tree_builder::trailing_absents(w.rules[rule as int]));
                lemma_continues_trans(n0, n1, n2);
                lemma_continues_trans(n0, n2, nodes@);
            }
        }
        found
    }

    /// Builds the value of each list of children and adds it.
    fn add_outcomes(
        &self,
        rule: usize,
        ds: &mut Vec<Slot>,
        lists: Vec<Vec<Slot>>,
        b: &mut Built,
    )
        requires
            rule < self.walk().rules.len(),
        ensures
            *final(b) == built::with(
                *old(b),
                lists_built(self.walk(), rule as int, list_models(lists@), lists@.len()),
            ),
            tree_builder::slot_models(final(ds)@) == outcomes_added(
                self.walk(),
                rule as int,
                tree_builder::slot_models(old(ds)@),
                list_models(lists@),
                lists@.len(),
            ),
            final(ds)@.len() >= old(ds)@.len(),
    {
        let ghost w = self.walk();
        let ghost given = lists@;
        let ghost models = list_models(given);
        let ghost d0 = tree_builder::slot_models(ds@);
        let ghost b0 = *b;
        let builder = TreeOutputBuilder::with_propagate_positions(&self.grammar.rules, self.pp);
        proof {
            built::lemma_with_nothing(b0);
        }
        for list in it: lists
            invariant
                *b == built::with(b0, lists_built(w, rule as int, models, it.index() as nat)),
                it.seq() == given,
                models == list_models(given),
                w == self.walk(),
                rule < w.rules.len(),
                builder.models() == w.rules,
                builder.propagate_positions == w.pp,
                ds@.len() >= d0.len(),
                tree_builder::slot_models(ds@) == outcomes_added(
                    w,
                    rule as int,
                    d0,
                    models,
                    it.index() as nat,
                ),
        {
            proof {
                assert(models[it.index()] == tree_builder::slot_models(list@));
                built::lemma_with(
                    b0,
                    lists_built(w, rule as int, models, it.index() as nat),
                    built::reduction_built(w.rules[rule as int], models[it.index()]),
                );
            }
            let v = builder.assemble_counted(rule, list, b);
            add_outcome(ds, v);
        }
    }

    /// The value of the root of the forest.
    pub fn transform(&self, root: usize) -> (r: Option<Slot>)
        requires
            walk_ok(self.walk()),
            root < self.walk().forest.nodes.len(),
        ensures
            slot_option(r) == transformed(self.walk(), root as int),
    {
        self.transform_counted(root).0
    }

    /// The value of the root of the forest, and the work that finding it took.
    pub fn transform_counted(&self, root: usize) -> (r: (Option<Slot>, earley_rank::Work))
        requires
            walk_ok(self.walk()),
            root < self.walk().forest.nodes.len(),
        ensures
            slot_option(r.0) == transformed(self.walk(), root as int),
            r.1 == walk_work(self.walk(), root as int),
    {
        let ghost w = self.walk();
        let n: usize = self.forest.nodes.len();
        let mut m = Memos {
            values: Vec::new(),
            seen: blank_row(n),
            derivs: Vec::new(),
            single: Vec::new(),
            prio: Vec::new(),
            hits: Vec::new(),
            work: earley_rank::Work {
                copies: 0,
                children: 0,
                assembled: 0,
                derivations: 0,
                built: Built::new(),
            },
        };
        let ghost seen = m.seen@;
        let mut i: usize = 0;
        while i < n
            invariant
                i <= n,
                m.seen@ == seen,
                m.hits@.len() == 0,
                m.work == no_work(),
                m.values@.len() == i,
                m.derivs@.len() == i,
                m.single@.len() == i,
                m.prio@.len() == i,
                forall|k: int| 0 <= k < i ==> #[trigger] m.values@[k] is None,
                forall|k: int| 0 <= k < i ==> #[trigger] m.derivs@[k] is None,
                forall|k: int| 0 <= k < i ==> #[trigger] m.single@[k] is None,
                forall|k: int| 0 <= k < i ==> #[trigger] m.prio@[k] is None,
            decreases n - i,
        {
            m.values.push(None);
            m.derivs.push(None);
            m.single.push(None);
            m.prio.push(None);
            i = i + 1;
        }
        let mut visiting = blank_row(n);
        proof {
            let blank = nothing_found(w.forest.nodes.len());
            assert(m@.values =~= blank.values);
            assert(m@.seen =~= blank.seen);
            assert(m@.derivs =~= blank.derivs);
            assert(m@.single =~= blank.single);
            assert(m@.prio =~= blank.prio);
            assert(m@.hits =~= blank.hits);
            assert(visiting@ =~= earley_rank::idle(w.forest.nodes.len()));
        }
        let v = self.eval(root, &mut m, &mut visiting);
        (v, m.work)
    }
}

impl<'a> Transformer<'a> {
    /// Begins a node, or a part of a rule.
    #[verifier::rlimit(80)]
    fn wide_enter(
        &self,
        c: Sweep,
        m: &mut Memos,
        visiting: &mut Vec<bool>,
        Ghost(v0): Ghost<Seq<bool>>,
    ) -> (r: Sweep)
        requires
            walk_ok(self.walk()),
            fits(self.walk(), old(m)@),
            sweep_ok(self.walk(), c, old(visiting)@, v0),
            c.next is Enter,
        ensures
            fits(self.walk(), final(m)@),
            sweep_ok(self.walk(), r, final(visiting)@, v0),
            swept(self.walk(), r, final(m)@, final(visiting)@) == swept(
                self.walk(),
                c,
                old(m)@,
                old(visiting)@,
            ),
            exists|i: int| steps::is_less(sweep_left(r), sweep_left(c), i),
    {
        let ghost w = self.walk();
        let ghost m0 = m@;
        let ghost given = sweep_left(c);
        let ghost vis = visiting@;
        let Sweep { stack, next, usage } = c;
        let ghost s0 = stack@;
        let mut stack = stack;
        proof {
            assert(given[s0.len() as int] == most_left() - 1);
        }
        let (id, whole) = match next {
            Next::Enter(id, whole) => (id, whole),
            _ => (0, false),
        };
        proof {
            assert(m0.derivs[id as int] is Some == m.derivs@[id as int] is Some);
        }
        let known = whole && m.derivs[id].is_some();
        if known || visiting[id] {
            let mut ds: Vec<Slot> = Vec::new();
            let mut stays = false;
            proof {
                assert(tree_builder::slot_models(ds@) =~= Seq::empty());
            }
            if whole {
                if let Some(known_ds) = &m.derivs[id] {
                    ds = copy_slots(known_ds);
                    stays = true;
                }
            }
            if !stays {
                m.meet_again(id);
            }
            let next = if whole {
                Next::Values(ds)
            } else {
                Next::Out(Vec::new())
            };
            let r = Sweep { stack, next, usage };
            proof {
                if !whole {
                    assert(list_models(r.next->Out_0@) =~= Seq::empty());
                }
                assert(steps::is_less(sweep_left(r), given, s0.len() as int));
            }
            return r;
        }
        let order = self.sorted_families(id, &mut m.prio);
        let before = m.enter();
        let ghost m1 = m@;
        proof {
            assert(m1 == earley_rank::entered(m0, earley_rank::tried(w, id as int, m0.prio).1));
        }
        visiting.set(id, true);
        let f = Wide {
            id,
            order,
            k: 0,
            begun: 0,
            before,
            whole,
            out: Vec::new(),
            ds: Vec::new(),
            lefts: Vec::new(),
            usage,
        };
        stack.push(f);
        let r = Sweep { stack, next: Next::Family, usage };
        proof {
            assert(visiting@.update(id as int, false) =~= vis);
            assert(stack@.drop_last() =~= s0);
            assert(wide_models(stack@).drop_last() =~= wide_models(s0));
            assert(wide_models(stack@).last() == wide_model(f));
            assert(list_models(f.out@) =~= Seq::empty());
            assert(tree_builder::slot_models(f.ds@) =~= Seq::empty());
            lemma_from(w, id as int, f.order@, 0, m1, visiting@);
            lemma_wide_depth(w, stack@, visiting@, v0);
            assert(wide_left(stack@[s0.len() as int]) < most_left() - 1);
            assert(steps::is_less(sweep_left(r), given, s0.len() as int));
        }
        r
    }

    /// Expands the family of the innermost open node, or ends the node.
    #[verifier::rlimit(80)]
    fn wide_family(
        &self,
        c: Sweep,
        m: &mut Memos,
        visiting: &mut Vec<bool>,
        Ghost(v0): Ghost<Seq<bool>>,
    ) -> (r: Sweep)
        requires
            walk_ok(self.walk()),
            fits(self.walk(), old(m)@),
            sweep_ok(self.walk(), c, old(visiting)@, v0),
            c.next is Family,
        ensures
            fits(self.walk(), final(m)@),
            sweep_ok(self.walk(), r, final(visiting)@, v0),
            swept(self.walk(), r, final(m)@, final(visiting)@) == swept(
                self.walk(),
                c,
                old(m)@,
                old(visiting)@,
            ),
            exists|i: int| steps::is_less(sweep_left(r), sweep_left(c), i),
    {
        let ghost w = self.walk();
        let ghost m0 = m@;
        let ghost given = sweep_left(c);
        let ghost vis = visiting@;
        let Sweep { stack, next, usage } = c;
        let ghost s0 = stack@;
        let ghost last: int = s0.len() - 1;
        let mut stack = stack;
        proof {
            assert(wide_models(s0).drop_last() =~= wide_models(s0.drop_last()));
            assert(wide_models(s0).last() == wide_model(s0.last()));
            assert(given[last] == wide_left(s0[last]));
            assert(given[s0.len() as int] == 7);
        }
        match stack.pop() {
            None => Sweep { stack, next, usage },
            Some(f) => {
                let mut f = f;
                let n: usize = f.order.len();
                let ghost order = f.order@;
                if f.k >= n {
                    visiting.set(f.id, false);
                    let Wide { id, before, whole, out, ds, usage, .. } = f;
                    let ghost dm = tree_builder::slot_models(ds@);
                    let others: usize = before.len();
                    let next = if whole {
                        let children: u64 = count_values(&ds, m.work.children);
                        m.work = earley_rank::Work { children, ..m.work };
                        proof {
                            assert(m@ == children_counted(m0, values_size(dm, dm.len())));
                        }
                        m.leave(id, before);
                        let ghost m2 = m@;
                        if m.hits.len() == others {
                            m.derivs.set(id, Some(copy_slots(&ds)));
                            proof {
                                assert(m@.derivs =~= m2.derivs.update(id as int, Some(dm)));
                            }
                        }
                        Next::Values(ds)
                    } else {
                        m.leave(id, before);
                        Next::Out(out)
                    };
                    let r = Sweep { stack, next, usage };
                    proof {
                        assert(visiting@ =~= vis.update(id as int, false));
                        assert(sweep_left(r)[last] == 8);
                        assert(steps::is_less(sweep_left(r), given, last));
                    }
                    return r;
                }
                let node = &self.forest.nodes[f.id];
                let p = node.families[f.order[f.k]];
                proof {
                    assert(w.forest.nodes[f.id as int] == node@);
                    assert(earley_forest::families_ok(
                        w.forest,
                        w.rules.len(),
                        w.forest.nodes[f.id as int],
                    ));
                    assert(earley_forest::packed_ok(
                        w.forest,
                        w.rules.len(),
                        w.forest.nodes[f.id as int].families[order[f.k as int] as int],
                    ));
                    assert(wide_family(w, wide_model(f)) == p);
                }
                proof {
                    let (ls, m1) = packed_expanded(w, p, m0, vis);
                    assert(swept(w, c, m0, vis) == lists_swept(w, wide_models(s0), ls, m1, vis));
                }
                match p.left {
                    ForestRef::Node(l) => {
                        f.begun = 1;
                        let ghost f1 = f;
                        stack.push(f);
                        let r = Sweep { stack, next: Next::Enter(l, false), usage };
                        proof {
                            lemma_wide_again(w, s0, f1, vis, v0);
                            assert(stack@ =~= s0.drop_last().push(f1));
                            assert(wide_models(stack@) =~= wide_models(s0));
                            assert(stack@.drop_last() =~= s0.drop_last());
                            lemma_wide_less(s0, r, Next::Family);
                        }
                        r
                    },
                    _ => {
                        let mut one: Vec<Slot> = Vec::new();
                        if let ForestRef::Tok(t) = p.left {
                            let tok = self.forest.tokens[t].copy();
                            proof {
                                assert(w.forest.tokens[t as int]
                                    == self.forest.tokens@[t as int]@);
                            }
                            one.push(Slot::Token(tok));
                        }
                        let ghost om = tree_builder::slot_models(one@);
                        let mut lefts: Vec<Vec<Slot>> = Vec::new();
                        lefts.push(one);
                        proof {
                            assert(list_models(lefts@) =~= seq![om]);
                            match p.left {
                                ForestRef::Tok(t) => {
                                    assert(om =~= seq![token_value(w, t as int)]);
                                },
                                _ => {
                                    assert(om =~= Seq::empty());
                                },
                            }
                        }
                        f.lefts = lefts;
                        let ghost f1 = f;
                        stack.push(f);
                        let r = Sweep { stack, next: Next::Right, usage };
                        proof {
                            lemma_wide_again(w, s0, f1, vis, v0);
                            assert(stack@ =~= s0.drop_last().push(f1));
                            lemma_lefts(w, wide_models(s0), wide_models(stack@));
                            assert forall|j: int| 0 <= j < s0.len() implies given[j]
                                == #[trigger] sweep_left(r)[j] by {
                                if j < last {
                                    assert(stack@[j] == s0[j]);
                                }
                            }
                            assert(steps::is_less(sweep_left(r), given, s0.len() as int));
                        }
                        r
                    },
                }
            },
        }
    }

    /// Expands the last symbol of the family of the innermost open node.
    #[verifier::rlimit(100)]
    fn wide_right(
        &self,
        c: Sweep,
        m: &mut Memos,
        visiting: &mut Vec<bool>,
        Ghost(v0): Ghost<Seq<bool>>,
    ) -> (r: Sweep)
        requires
            walk_ok(self.walk()),
            fits(self.walk(), old(m)@),
            sweep_ok(self.walk(), c, old(visiting)@, v0),
            c.next is Right,
        ensures
            fits(self.walk(), final(m)@),
            sweep_ok(self.walk(), r, final(visiting)@, v0),
            swept(self.walk(), r, final(m)@, final(visiting)@) == swept(
                self.walk(),
                c,
                old(m)@,
                old(visiting)@,
            ),
            exists|i: int| steps::is_less(sweep_left(r), sweep_left(c), i),
        decreases bits::missing(old(visiting)@), 6nat,
    {
        let ghost w = self.walk();
        let ghost m0 = m@;
        let ghost given = sweep_left(c);
        let ghost vis = visiting@;
        let Sweep { stack, next, usage } = c;
        let ghost s0 = stack@;
        let ghost last: int = s0.len() - 1;
        let mut stack = stack;
        proof {
            assert(wide_models(s0).drop_last() =~= wide_models(s0.drop_last()));
            assert(wide_models(s0).last() == wide_model(s0.last()));
            assert(given[last] == wide_left(s0[last]));
            assert(given[s0.len() as int] == 6);
        }
        match stack.pop() {
            None => Sweep { stack, next, usage },
            Some(f) => {
                let mut f = f;
                let ghost order = f.order@;
                let node = &self.forest.nodes[f.id];
                let p = node.families[f.order[f.k]];
                proof {
                    assert(w.forest.nodes[f.id as int] == node@);
                    assert(earley_forest::families_ok(
                        w.forest,
                        w.rules.len(),
                        w.forest.nodes[f.id as int],
                    ));
                    assert(earley_forest::packed_ok(
                        w.forest,
                        w.rules.len(),
                        w.forest.nodes[f.id as int].families[order[f.k as int] as int],
                    ));
                    assert(wide_family(w, wide_model(f)) == p);
                }
                let mut rights: Vec<Slot> = Vec::new();
                proof {
                    assert(tree_builder::slot_models(rights@) =~= Seq::empty());
                    assert(w.rules[p.rule as int] == self.grammar.rules@[p.rule as int]@);
                }
                let mut into: Option<Use> = None;
                let mut at: usize = 0;
                match p.right {
                    ForestRef::Nothing => {},
                    ForestRef::Tok(t) => {
                        let tok = self.forest.tokens[t].copy();
                        proof {
                            assert(w.forest.tokens[t as int] == self.forest.tokens@[t as int]@);
                        }
                        rights.push(Slot::Token(tok));
                        proof {
                            assert(tree_builder::slot_models(rights@) =~= seq![
                                token_value(w, t as int),
                            ]);
                        }
                    },
                    ForestRef::Node(x) => {
                        at = x;
                        let (found, whole) = self.alternatives(p, x, m, visiting);
                        rights = found;
                        into = whole;
                    },
                }
                if let Some(usage) = into {
                    f.begun = 2;
                    let ghost f1 = f;
                    stack.push(f);
                    let r = Sweep { stack, next: Next::Enter(at, true), usage };
                    proof {
                        lemma_wide_again(w, s0, f1, vis, v0);
                        assert(stack@ =~= s0.drop_last().push(f1));
                        assert(wide_models(stack@) =~= wide_models(s0));
                        assert(stack@.drop_last() =~= s0.drop_last());
                        lemma_wide_less(s0, r, Next::Right);
                    }
                    return r;
                }
                let mut lefts: Vec<Vec<Slot>> = Vec::new();
                std::mem::swap(&mut lefts, &mut f.lefts);
                let plain = match p.right {
                    ForestRef::Nothing => true,
                    _ => false,
                };
                let ls = if plain {
                    lefts
                } else {
                    combine(&lefts, &rights, m)
                };
                let ghost f1 = f;
                stack.push(f);
                let r = Sweep { stack, next: Next::Lists(ls), usage };
                proof {
                    lemma_wide_again(w, s0, f1, vis, v0);
                    assert(stack@ =~= s0.drop_last().push(f1));
                    lemma_lefts(w, wide_models(s0), wide_models(stack@));
                    assert forall|j: int| 0 <= j < s0.len() implies given[j]
                        == #[trigger] sweep_left(r)[j] by {
                        if j < last {
                            assert(stack@[j] == s0[j]);
                        }
                    }
                    assert(steps::is_less(sweep_left(r), given, s0.len() as int));
                }
                r
            },
        }
    }

    /// The values that the last symbol of a family can have; or how those of its
    /// node are used that are still to be found.
    #[verifier::rlimit(60)]
    fn alternatives(
        &self,
        p: Packed,
        c: usize,
        m: &mut Memos,
        visiting: &mut Vec<bool>,
    ) -> (r: (Vec<Slot>, Option<Use>))
        requires
            walk_ok(self.walk()),
            fits(self.walk(), old(m)@),
            old(visiting)@.len() == self.walk().forest.nodes.len(),
            p.rule < self.walk().rules.len(),
            c < self.walk().forest.nodes.len(),
        ensures
            right_alternatives(self.walk(), p, c as int, old(m)@, old(visiting)@) == (match r.1 {
                None => (tree_builder::slot_models(r.0@), final(m)@),
                Some(Use::Plain) => derivations(
                    self.walk(),
                    c as int,
                    final(m)@,
                    old(visiting)@,
                ),
                Some(Use::Beside(id)) => used_beside(
                    id as int,
                    derivations(self.walk(), c as int, final(m)@, old(visiting)@),
                ),
            }),
            r.1 matches Some(Use::Beside(id)) ==> id == c,
            fits(self.walk(), final(m)@),
            final(visiting)@ == old(visiting)@,
        decreases bits::missing(old(visiting)@), 5nat,
    {
        let ghost w = self.walk();
        let ghost m0 = m@;
        proof {
            assert(w.rules[p.rule as int] == self.grammar.rules@[p.rule as int]@);
        }
        let open = self.is_transparent_node(c);
        let mut out: Vec<Slot> = Vec::new();
        proof {
            assert(tree_builder::slot_models(out@) =~= Seq::empty());
        }
        if !self.resolve && (open || self.grammar.rules[p.rule].options.keep_all_tokens) {
            let single = if open {
                let mut free = blank_row(self.forest.nodes.len());
                proof {
                    assert(free@ =~= earley_rank::idle(w.forest.nodes.len()));
                }
                self.single_deriv(c, &mut m.single, &mut free);
                is_single_part(&m.single, ForestRef::Node(c))
            } else {
                false
            };
            proof {
                let known = if open {
                    earley_rank::single_known(
                        w,
                        c as int,
                        m0.single,
                        earley_rank::idle(w.forest.nodes.len()),
                    )
                } else {
                    m0.single
                };
                assert(m@ == (earley_rank::Found { single: known, ..m0 }));
            }
            if open && single {
                let mut nodes: Vec<Child> = Vec::new();
                let mut span = ContainerSpan::new();
                proof {
                    assert(tree::child_nodes(nodes@) =~= Seq::empty());
                    assert(buffer_of(nodes@, span) == blank_buffer());
                }
                let found = self.splice(c, &mut nodes, &mut span, m, visiting);
                if found.is_some() {
                    let ghost m1 = m@;
                    let children: u64 = perf::count(m.work.children, nodes.len() as u64);
                    m.work = earley_rank::Work { children, ..m.work };
                    proof {
                        assert(m@ == children_counted(m1, nodes@.len()));
                    }
                    out.push(Slot::Inline(nodes));
                    proof {
                        assert(tree_builder::slot_models(out@) =~= seq![
                            tree_builder::SlotModel::Inline(tree::child_nodes(nodes@)),
                        ]);
                    }
                }
                (out, None)
            } else {
                (out, Some(Use::Plain))
            }
        } else {
            proof {
                assert(m0.values[c as int] is Some == m.values@[c as int] is Some);
            }
            if !self.resolve && m.values[c].is_none() {
                return (out, Some(Use::Beside(c)));
            }
            let v = self.eval(c, m, visiting);
            if let Some(x) = v {
                out.push(x);
                proof {
                    assert(tree_builder::slot_models(out@) =~= seq![x@]);
                }
            }
            (out, None)
        }
    }

    /// Takes in the lists of the family of the innermost open node.
    #[verifier::rlimit(80)]
    fn wide_lists(
        &self,
        c: Sweep,
        m: &mut Memos,
        Ghost(vis): Ghost<Seq<bool>>,
        Ghost(v0): Ghost<Seq<bool>>,
    ) -> (r: Sweep)
        requires
            walk_ok(self.walk()),
            fits(self.walk(), old(m)@),
            sweep_ok(self.walk(), c, vis, v0),
            c.next is Lists,
        ensures
            fits(self.walk(), final(m)@),
            sweep_ok(self.walk(), r, vis, v0),
            swept(self.walk(), r, final(m)@, vis) == swept(
                self.walk(),
                c,
                old(m)@,
                vis,
            ),
            exists|i: int| steps::is_less(sweep_left(r), sweep_left(c), i),
    {
        let ghost w = self.walk();
        let ghost m0 = m@;
        let ghost given = sweep_left(c);
        let Sweep { stack, next, usage } = c;
        let ghost s0 = stack@;
        let ghost last: int = s0.len() - 1;
        let mut stack = stack;
        let ghost n0 = next;
        proof {
            assert(wide_models(s0).drop_last() =~= wide_models(s0.drop_last()));
            assert(wide_models(s0).last() == wide_model(s0.last()));
            assert(given[last] == wide_left(s0[last]));
        }
        let ls = match next {
            Next::Lists(ls) => ls,
            _ => Vec::new(),
        };
        let ghost lm = list_models(ls@);
        match stack.pop() {
            None => Sweep { stack, next: Next::Family, usage },
            Some(f) => {
                let mut f = f;
                let ghost f0 = f;
                let ghost order = f.order@;
                let node = &self.forest.nodes[f.id];
                let p = node.families[f.order[f.k]];
                proof {
                    assert(w.forest.nodes[f.id as int] == node@);
                    assert(earley_forest::families_ok(
                        w.forest,
                        w.rules.len(),
                        w.forest.nodes[f.id as int],
                    ));
                    assert(earley_forest::packed_ok(
                        w.forest,
                        w.rules.len(),
                        w.forest.nodes[f.id as int].families[order[f.k as int] as int],
                    ));
                    assert(wide_family(w, wide_model(f)) == p);
                }
                if f.whole {
                    let mut ds: Vec<Slot> = Vec::new();
                    std::mem::swap(&mut ds, &mut f.ds);
                    let had: usize = ds.len();
                    let assembled: u64 = count_lists(&ls, m.work.assembled);
                    let mut built: Built = m.work.built;
                    self.add_outcomes(p.rule, &mut ds, ls, &mut built);
                    let kept: u64 = perf::count(m.work.derivations, (ds.len() - had) as u64);
                    m.work = earley_rank::Work { assembled, derivations: kept, built, ..m.work };
                    proof {
                        assert(m@ == outcomes_counted(
                            m0,
                            lists_size(lm, lm.len()),
                            (ds@.len() - had) as nat,
                            lists_built(w, p.rule as int, lm, lm.len()),
                        ));
                    }
                    f.ds = ds;
                } else {
                    let mut ls = ls;
                    let ghost more = ls@;
                    let mut out: Vec<Vec<Slot>> = Vec::new();
                    std::mem::swap(&mut out, &mut f.out);
                    let ghost had = out@;
                    out.append(&mut ls);
                    proof {
                        assert(out@ =~= had + more);
                        assert(list_models(out@) =~= list_models(had) + lm);
                    }
                    f.out = out;
                }
                f.k = f.k + 1;
                f.begun = 0;
                let ghost f1 = f;
                stack.push(f);
                let r = Sweep { stack, next: Next::Family, usage };
                proof {
                    lemma_wide_again(w, s0, f1, vis, v0);
                    assert(stack@ =~= s0.drop_last().push(f1));
                    assert(wide_model(f1) == taken_in(w, wide_model(f0), lm, m0).0);
                    assert(m@ == taken_in(w, wide_model(f0), lm, m0).1);
                    assert(stack@.drop_last() =~= s0.drop_last());
                    lemma_wide_less(s0, r, n0);
                }
                r
            },
        }
    }

    /// Goes on with the lists of a part of a rule.
    #[verifier::rlimit(80)]
    fn wide_out(
        &self,
        c: Sweep,
        m: &mut Memos,
        Ghost(vis): Ghost<Seq<bool>>,
        Ghost(v0): Ghost<Seq<bool>>,
    ) -> (r: Sweep)
        requires
            walk_ok(self.walk()),
            fits(self.walk(), old(m)@),
            sweep_ok(self.walk(), c, vis, v0),
            c.next is Out,
        ensures
            fits(self.walk(), final(m)@),
            sweep_ok(self.walk(), r, vis, v0),
            swept(self.walk(), r, final(m)@, vis) == swept(
                self.walk(),
                c,
                old(m)@,
                vis,
            ),
            exists|i: int| steps::is_less(sweep_left(r), sweep_left(c), i),
    {
        let ghost w = self.walk();
        let ghost given = sweep_left(c);
        let Sweep { stack, next, usage } = c;
        let ghost s0 = stack@;
        let ghost last: int = s0.len() - 1;
        let mut stack = stack;
        proof {
            assert(wide_models(s0).drop_last() =~= wide_models(s0.drop_last()));
            assert(wide_models(s0).last() == wide_model(s0.last()));
            assert(given[last] == wide_left(s0[last]));
            assert(given[s0.len() as int] == 8);
        }
        let ls = match next {
            Next::Out(ls) => ls,
            _ => Vec::new(),
        };
        proof {
            assert(list_models(ls@).len() == ls@.len());
        }
        if ls.len() == 0 {
            let r = Sweep { stack, next: Next::Lists(ls), usage };
            proof {
                assert(list_models(ls@) =~= Seq::empty());
                assert(steps::is_less(sweep_left(r), given, s0.len() as int));
            }
            return r;
        }
        match stack.pop() {
            None => Sweep { stack, next: Next::Family, usage },
            Some(f) => {
                let mut f = f;
                f.lefts = ls;
                let ghost f1 = f;
                stack.push(f);
                let r = Sweep { stack, next: Next::Right, usage };
                proof {
                    lemma_wide_again(w, s0, f1, vis, v0);
                    assert(stack@ =~= s0.drop_last().push(f1));
                    lemma_lefts(w, wide_models(s0), wide_models(stack@));
                    assert forall|j: int| 0 <= j < s0.len() implies given[j]
                        == #[trigger] sweep_left(r)[j] by {
                        if j < last {
                            assert(stack@[j] == s0[j]);
                        }
                    }
                    assert(steps::is_less(sweep_left(r), given, s0.len() as int));
                }
                r
            },
        }
    }

    /// Goes on with the derivations of a node.
    #[verifier::rlimit(80)]
    fn wide_values(
        &self,
        c: Sweep,
        m: &mut Memos,
        Ghost(vis): Ghost<Seq<bool>>,
        Ghost(v0): Ghost<Seq<bool>>,
    ) -> (r: Sweep)
        requires
            walk_ok(self.walk()),
            fits(self.walk(), old(m)@),
            sweep_ok(self.walk(), c, vis, v0),
            c.next is Values,
            c.stack@.len() > 0,
        ensures
            fits(self.walk(), final(m)@),
            sweep_ok(self.walk(), r, vis, v0),
            swept(self.walk(), r, final(m)@, vis) == swept(
                self.walk(),
                c,
                old(m)@,
                vis,
            ),
            exists|i: int| steps::is_less(sweep_left(r), sweep_left(c), i),
    {
        let ghost w = self.walk();
        let ghost m0 = m@;
        let ghost given = sweep_left(c);
        let Sweep { stack, next, usage } = c;
        let ghost s0 = stack@;
        let ghost last: int = s0.len() - 1;
        let mut stack = stack;
        proof {
            assert(wide_models(s0).drop_last() =~= wide_models(s0.drop_last()));
            assert(wide_models(s0).last() == wide_model(s0.last()));
            assert(given[last] == wide_left(s0[last]));
            assert(given[s0.len() as int] == 8);
        }
        let ds = match next {
            Next::Values(ds) => ds,
            _ => Vec::new(),
        };
        let mut rights: Vec<Slot> = Vec::new();
        proof {
            assert(tree_builder::slot_models(rights@) =~= Seq::empty());
        }
        match usage {
            Use::Plain => {
                rights = ds;
            },
            Use::Beside(id) => {
                let v = beside(ds);
                if let Some(x) = v {
                    let ghost xm = x@;
                    proof {
                        assert(m0.derivs[id as int] is Some == m.derivs@[id as int] is Some);
                    }
                    if m.derivs[id].is_some() {
                        m.values.set(id, Some(copy_slot(&x)));
                        proof {
                            assert(m@.values =~= m0.values.update(id as int, Some(xm)));
                        }
                    }
                    rights.push(x);
                    proof {
                        assert(tree_builder::slot_models(rights@) =~= seq![xm]);
                    }
                }
            },
        }
        match stack.pop() {
            None => Sweep { stack, next: Next::Family, usage },
            Some(f) => {
                let mut f = f;
                let mut lefts: Vec<Vec<Slot>> = Vec::new();
                std::mem::swap(&mut lefts, &mut f.lefts);
                let ls = combine(&lefts, &rights, m);
                let ghost f1 = f;
                stack.push(f);
                let r = Sweep { stack, next: Next::Lists(ls), usage };
                proof {
                    lemma_wide_again(w, s0, f1, vis, v0);
                    assert(stack@ =~= s0.drop_last().push(f1));
                    lemma_lefts(w, wide_models(s0), wide_models(stack@));
                    assert forall|j: int| 0 <= j < s0.len() implies given[j]
                        == #[trigger] sweep_left(r)[j] by {
                        if j < last {
                            assert(stack@[j] == s0[j]);
                        }
                    }
                    assert(steps::is_less(sweep_left(r), given, s0.len() as int));
                }
                r
            },
        }
    }

    /// All derivations of a node. The open nodes are kept on a stack of their
    /// own.
    #[verifier::rlimit(60)]
    fn derivs(&self, id: usize, m: &mut Memos, visiting: &mut Vec<bool>) -> (r: Vec<Slot>)
        requires
            walk_ok(self.walk()),
            fits(self.walk(), old(m)@),
            old(visiting)@.len() == self.walk().forest.nodes.len(),
            id < self.walk().forest.nodes.len(),
        ensures
            (tree_builder::slot_models(r@), final(m)@) == derivations(
                self.walk(),
                id as int,
                old(m)@,
                old(visiting)@,
            ),
            fits(self.walk(), final(m)@),
            final(visiting)@ == old(visiting)@,
        decreases bits::missing(old(visiting)@), 2nat,
    {
        let ghost w = self.walk();
        let ghost v0 = visiting@;
        let ghost goal = derivations(w, id as int, m@, v0);
        let mut c = Sweep { stack: Vec::new(), next: Next::Enter(id, true), usage: Use::Plain };
        let ghost depth: nat = bits::missing(v0) + 1;
        proof {
            assert(wide_models(c.stack@) =~= Seq::empty());
        }
        loop
            invariant
                w == self.walk(),
                walk_ok(w),
                fits(w, m@),
                v0 == old(visiting)@,
                depth == bits::missing(v0) + 1,
                sweep_ok(w, c, visiting@, v0),
                swept(w, c, m@, visiting@) == goal,
                goal == derivations(w, id as int, old(m)@, v0),
            decreases steps::measure(sweep_left(c), most_left(), depth, 0),
        {
            let ghost given = sweep_left(c);
            proof {
                lemma_wide_depth(w, c.stack@, visiting@, v0);
            }
            match c.next {
                Next::Enter(_, _) => {
                    c = self.wide_enter(c, m, visiting, Ghost(v0));
                },
                Next::Family => {
                    c = self.wide_family(c, m, visiting, Ghost(v0));
                },
                Next::Right => {
                    c = self.wide_right(c, m, visiting, Ghost(v0));
                },
                Next::Lists(_) => {
                    c = self.wide_lists(c, m, Ghost(visiting@), Ghost(v0));
                },
                Next::Out(_) => {
                    c = self.wide_out(c, m, Ghost(visiting@), Ghost(v0));
                },
                Next::Values(_) => {
                    if c.stack.len() == 0 {
                        proof {
                            assert(wide_models(c.stack@) =~= Seq::empty());
                        }
                        let Sweep { next, .. } = c;
                        return match next {
                            Next::Values(ds) => ds,
                            _ => Vec::new(),
                        };
                    }
                    c = self.wide_values(c, m, Ghost(visiting@), Ghost(v0));
                },
            }
            proof {
                lemma_wide_depth(w, c.stack@, visiting@, v0);
                let i = choose|i: int| steps::is_less(sweep_left(c), given, i);
                assert(steps::is_bounded(sweep_left(c), most_left(), depth));
                steps::lemma_less(sweep_left(c), given, most_left(), depth, i);
            }
        }
    }
}

impl<'a> Transformer<'a> {
    /// Begins a node.
    #[verifier::rlimit(60)]
    fn step_enter(
        &self,
        c: Course,
        id: usize,
        m: &mut Memos,
        visiting: &mut Vec<bool>,
        Ghost(n0): Ghost<Seq<Child>>,
        Ghost(v0): Ghost<Seq<bool>>,
    ) -> (r: Course)
        requires
            walk_ok(self.walk()),
            fits(self.walk(), old(m)@),
            course_ok(self.walk(), c, old(visiting)@, n0, v0),
            c.turn == Turn::Enter(id),
        ensures
            fits(self.walk(), final(m)@),
            course_ok(self.walk(), r, final(visiting)@, n0, v0),
            outcome(self.walk(), r, final(m)@, final(visiting)@) == outcome(
                self.walk(),
                c,
                old(m)@,
                old(visiting)@,
            ),
            exists|i: int| steps::is_less(course_left(r), course_left(c), i),
    {
        let ghost w = self.walk();
        let ghost m0 = m@;
        let ghost vis = visiting@;
        let ghost given = course_left(c);
        let Course { stack, turn: _, how, nodes, span } = c;
        let ghost s0 = stack@;
        let mut stack = stack;
        proof {
            assert(given[s0.len() as int] == turn_left(Turn::Enter(id)));
        }
        if visiting[id] {
            m.meet_again(id);
            let r = Course { stack, turn: Turn::Returned(None), how, nodes, span };
            proof {
                assert(steps::is_less(course_left(r), given, s0.len() as int));
            }
            return r;
        }
        let order = self.sorted_families(id, &mut m.prio);
        let before = m.enter();
        proof {
            assert(m@ == earley_rank::entered(m0, earley_rank::tried(w, id as int, m0.prio).1));
            empty_values::lemma_visit(vis, id as int);
        }
        visiting.set(id, true);
        let mark: usize = nodes.len();
        let f = Open {
            id,
            order,
            k: 0,
            begun: 0,
            mark,
            held: span,
            start: Ghost(nodes@),
            before,
            how,
        };
        stack.push(f);
        let r = Course { stack, turn: Turn::Family, how: How::Left, nodes, span };
        proof {
            assert(visiting@.update(id as int, false) =~= vis);
            assert(nodes@.take(nodes@.len() as int) =~= nodes@);
            assert(stack@.drop_last() =~= s0);
            assert(open_models(stack@).drop_last() =~= open_models(s0));
            assert(open_models(stack@).last() == open_model(f));
            lemma_stack_depth(w, stack@, nodes@, visiting@, n0, v0);
            assert(open_left(stack@[s0.len() as int]) < most_left() - 1);
            assert(steps::is_less(course_left(r), given, s0.len() as int));
        }
        r
    }

    /// Tries the family of the innermost open node.
    #[verifier::rlimit(80)]
    fn step_family(
        &self,
        c: Course,
        m: &mut Memos,
        visiting: &mut Vec<bool>,
        Ghost(n0): Ghost<Seq<Child>>,
        Ghost(v0): Ghost<Seq<bool>>,
    ) -> (r: Course)
        requires
            walk_ok(self.walk()),
            fits(self.walk(), old(m)@),
            course_ok(self.walk(), c, old(visiting)@, n0, v0),
            c.turn is Family,
        ensures
            fits(self.walk(), final(m)@),
            course_ok(self.walk(), r, final(visiting)@, n0, v0),
            outcome(self.walk(), r, final(m)@, final(visiting)@) == outcome(
                self.walk(),
                c,
                old(m)@,
                old(visiting)@,
            ),
            exists|i: int| steps::is_less(course_left(r), course_left(c), i),
    {
        let ghost w = self.walk();
        let ghost m0 = m@;
        let ghost vis = visiting@;
        let ghost given = course_left(c);
        let Course { stack, turn: _, how, nodes, span } = c;
        let ghost s0 = stack@;
        let mut stack = stack;
        let mut nodes = nodes;
        let mut span = span;
        let ghost last: int = s0.len() - 1;
        proof {
            lemma_models_pop(s0);
            assert(given[last] == open_left(s0[last]));
            assert(given[s0.len() as int] == 7);
        }
        match stack.pop() {
            None => Course { stack, turn: Turn::Family, how, nodes, span },
            Some(f) => {
                let mut f = f;
                let ghost f0 = f;
                let n: usize = f.order.len();
                let ghost order = f.order@;
                if f.k >= n {
                    visiting.set(f.id, false);
                    let Open { id, before, how, .. } = f;
                    m.leave(id, before);
                    let r = Course { stack, turn: Turn::Returned(None), how, nodes, span };
                    proof {
                        assert(visiting@ =~= vis.update(id as int, false));
                        assert(course_left(r)[last] == 8);
                        assert(steps::is_less(course_left(r), given, last));
                    }
                    return r;
                }
                let node = &self.forest.nodes[f.id];
                let p = node.families[f.order[f.k]];
                proof {
                    assert(w.forest.nodes[f.id as int] == node@);
                    assert(earley_forest::families_ok(
                        w.forest,
                        w.rules.len(),
                        w.forest.nodes[f.id as int],
                    ));
                    assert(earley_forest::packed_ok(
                        w.forest,
                        w.rules.len(),
                        w.forest.nodes[f.id as int].families[order[f.k as int] as int],
                    ));
                    assert(family_of(w, open_model(f0)) == p);
                    assert(open_model(f0).start == buffer_of(nodes@, span));
                    let (built, b1, m1) = packed_appended(w, p, open_model(f0).start, m0, vis);
                    assert(outcome(w, c, m0, vis) == settled(
                        w,
                        open_models(s0),
                        built,
                        b1,
                        m1,
                        vis,
                    ));
                }
                match p.left {
                    ForestRef::Nothing => {
                        stack.push(f);
                        let r = Course { stack, turn: Turn::Right, how, nodes, span };
                        proof {
                            assert(stack@ =~= s0);
                            assert(outcome(w, r, m0, vis) == outcome(w, c, m0, vis));
                            assert(steps::is_less(course_left(r), given, s0.len() as int));
                        }
                        r
                    },
                    ForestRef::Tok(t) => {
                        let ghost n1 = nodes@;
                        let tok = self.forest.tokens[t].copy();
                        proof {
                            assert(w.forest.tokens[t as int] == self.forest.tokens@[t as int]@);
                        }
                        if self.pp {
                            span.observe_token(&tok);
                        }
                        push_child(&mut nodes, Child::Token(tok));
                        stack.push(f);
                        let r = Course { stack, turn: Turn::Right, how, nodes, span };
                        proof {
                            assert(stack@ =~= s0);
                            assert(outcome(w, r, m0, vis) == outcome(w, c, m0, vis));
                            lemma_stack_grows(w, s0, n1, nodes@, vis, n0, v0);
                            assert(steps::is_less(course_left(r), given, s0.len() as int));
                        }
                        r
                    },
                    ForestRef::Node(l) => {
                        f.begun = 1;
                        let ghost f1 = f;
                        stack.push(f);
                        let r = Course { stack, turn: Turn::Enter(l), how, nodes, span };
                        proof {
                            lemma_stack_again(w, s0, f1, nodes@, vis, n0, v0);
                            assert(stack@ =~= s0.drop_last().push(f1));
                            assert(open_models(stack@) =~= open_models(s0));
                            assert(outcome(w, r, m0, vis) == outcome(w, c, m0, vis));
                            assert(course_left(r)[last] == open_left(f1));
                            assert forall|j: int| 0 <= j < last implies given[j]
                                == #[trigger] course_left(r)[j] by {
                                assert(stack@[j] == s0[j]);
                            }
                            assert(steps::is_less(course_left(r), given, last));
                        }
                        r
                    },
                }
            },
        }
    }

    /// Adds the last symbol of the family of the innermost open node.
    #[verifier::rlimit(80)]
    fn step_right(
        &self,
        c: Course,
        m: &mut Memos,
        visiting: &mut Vec<bool>,
        Ghost(n0): Ghost<Seq<Child>>,
        Ghost(v0): Ghost<Seq<bool>>,
    ) -> (r: Course)
        requires
            walk_ok(self.walk()),
            fits(self.walk(), old(m)@),
            course_ok(self.walk(), c, old(visiting)@, n0, v0),
            c.turn is Right,
        ensures
            fits(self.walk(), final(m)@),
            course_ok(self.walk(), r, final(visiting)@, n0, v0),
            outcome(self.walk(), r, final(m)@, final(visiting)@) == outcome(
                self.walk(),
                c,
                old(m)@,
                old(visiting)@,
            ),
            exists|i: int| steps::is_less(course_left(r), course_left(c), i),
        decreases bits::missing(old(visiting)@), 5nat,
    {
        let ghost w = self.walk();
        let ghost m0 = m@;
        let ghost vis = visiting@;
        let ghost given = course_left(c);
        let Course { stack, turn: _, how, nodes, span } = c;
        let ghost s0 = stack@;
        let mut stack = stack;
        let mut nodes = nodes;
        let mut span = span;
        let ghost n1 = nodes@;
        let ghost b = buffer_of(nodes@, span);
        let ghost last: int = s0.len() - 1;
        proof {
            lemma_models_pop(s0);
            assert(given[last] == open_left(s0[last]));
            assert(given[s0.len() as int] == 6);
        }
        match stack.pop() {
            None => Course { stack, turn: Turn::Right, how, nodes, span },
            Some(f) => {
                let mut f = f;
                let ghost order = f.order@;
                let node = &self.forest.nodes[f.id];
                let p = node.families[f.order[f.k]];
                proof {
                    assert(w.forest.nodes[f.id as int] == node@);
                    assert(earley_forest::families_ok(
                        w.forest,
                        w.rules.len(),
                        w.forest.nodes[f.id as int],
                    ));
                    assert(earley_forest::packed_ok(
                        w.forest,
                        w.rules.len(),
                        w.forest.nodes[f.id as int].families[order[f.k as int] as int],
                    ));
                    assert(family_of(w, open_model(f)) == p);
                    assert(n1.take(n1.len() as int) =~= n1);
                }
                let mut ok = true;
                match p.right {
                    ForestRef::Nothing => {},
                    ForestRef::Tok(t) => {
                        self.push_nones_before(p.rule, p.right_pos, &mut nodes);
                        let ghost n2 = nodes@;
                        proof {
                            assert(buffer_of(n2, span) == with_gap(
                                w,
                                b,
                                p.rule as int,
                                p.right_pos as int,
                            ));
                            assert(w.forest.tokens[t as int] == self.forest.tokens@[t as int]@);
                        }
                        let tok = self.forest.tokens[t].copy();
                        self.push_value(
                            p.rule,
                            p.right_pos,
                            Slot::Token(tok),
                            &mut nodes,
                            &mut span,
                        );
                        proof {
                            lemma_continues_trans(n1, n2, nodes@);
                        }
                    },
                    ForestRef::Node(x) => {
                        self.push_nones_before(p.rule, p.right_pos, &mut nodes);
                        let ghost n2 = nodes@;
                        proof {
                            assert(buffer_of(n2, span) == with_gap(
                                w,
                                b,
                                p.rule as int,
                                p.right_pos as int,
                            ));
                        }
                        let flat = self.is_transparent_node(x);
                        let known = !flat && (!self.resolve || m.values[x].is_some());
                        proof {
                            assert(m0.values[x as int] is Some == m.values@[x as int] is Some);
                        }
                        if !known {
                            f.begun = 2;
                            let ghost f1 = f;
                            stack.push(f);
                            let r = if flat {
                                Course {
                                    stack,
                                    turn: Turn::Enter(x),
                                    how: How::Splice,
                                    nodes,
                                    span,
                                }
                            } else {
                                Course {
                                    stack,
                                    turn: Turn::Enter(x),
                                    how: How::Value(nodes, span, x),
                                    nodes: Vec::new(),
                                    span: ContainerSpan::new(),
                                }
                            };
                            proof {
                                lemma_stack_grows(w, s0, n1, n2, vis, n0, v0);
                                lemma_stack_again(w, s0, f1, n2, vis, n0, v0);
                                assert(r.stack@ =~= s0.drop_last().push(f1));
                                assert(open_models(r.stack@) =~= open_models(s0));
                                assert(course_left(r)[last] == open_left(f1));
                                assert forall|j: int| 0 <= j < last implies given[j]
                                    == #[trigger] course_left(r)[j] by {
                                    assert(r.stack@[j] == s0[j]);
                                }
                                assert(steps::is_less(course_left(r), given, last));
                                if !flat {
                                    assert(tree::child_nodes(r.nodes@) =~= Seq::empty());
                                    assert(buffer_of(r.nodes@, r.span) == blank_buffer());
                                }
                            }
                            return r;
                        }
                        let v = self.eval(x, m, visiting);
                        match v {
                            None => {
                                ok = false;
                            },
                            Some(v) => {
                                self.push_value(p.rule, p.right_pos, v, &mut nodes, &mut span);
                                proof {
                                    lemma_continues_trans(n1, n2, nodes@);
                                }
                            },
                        }
                    },
                }
                stack.push(f);
                let r = Course { stack, turn: Turn::Settled(ok), how, nodes, span };
                proof {
                    assert(stack@ =~= s0);
                    lemma_stack_grows(w, s0, n1, nodes@, vis, n0, v0);
                    assert(steps::is_less(course_left(r), given, s0.len() as int));
                }
                r
            },
        }
    }

    /// Ends the family of the innermost open node.
    #[verifier::rlimit(80)]
    fn step_settled(
        &self,
        c: Course,
        ok: bool,
        m: &mut Memos,
        visiting: &mut Vec<bool>,
        Ghost(n0): Ghost<Seq<Child>>,
        Ghost(v0): Ghost<Seq<bool>>,
    ) -> (r: Course)
        requires
            walk_ok(self.walk()),
            fits(self.walk(), old(m)@),
            course_ok(self.walk(), c, old(visiting)@, n0, v0),
            c.turn == Turn::Settled(ok),
        ensures
            fits(self.walk(), final(m)@),
            course_ok(self.walk(), r, final(visiting)@, n0, v0),
            outcome(self.walk(), r, final(m)@, final(visiting)@) == outcome(
                self.walk(),
                c,
                old(m)@,
                old(visiting)@,
            ),
            exists|i: int| steps::is_less(course_left(r), course_left(c), i),
    {
        let ghost w = self.walk();
        let ghost vis = visiting@;
        let ghost given = course_left(c);
        let Course { stack, turn: _, how, nodes, span } = c;
        let ghost s0 = stack@;
        let mut stack = stack;
        let mut nodes = nodes;
        let ghost n1 = nodes@;
        let ghost last: int = s0.len() - 1;
        proof {
            lemma_models_pop(s0);
            assert(given[last] == open_left(s0[last]));
            assert(given[s0.len() as int] == 5);
        }
        match stack.pop() {
            None => Course { stack, turn: Turn::Settled(ok), how, nodes, span },
            Some(f) => {
                let mut f = f;
                let ghost f0 = f;
                let ghost order = f.order@;
                let node = &self.forest.nodes[f.id];
                let p = node.families[f.order[f.k]];
                proof {
                    assert(w.forest.nodes[f.id as int] == node@);
                    assert(earley_forest::families_ok(
                        w.forest,
                        w.rules.len(),
                        w.forest.nodes[f.id as int],
                    ));
                    assert(earley_forest::packed_ok(
                        w.forest,
                        w.rules.len(),
                        w.forest.nodes[f.id as int].families[order[f.k as int] as int],
                    ));
                    assert(family_of(w, open_model(f0)) == p);
                }
                if ok {
                    visiting.set(f.id, false);
                    let Open { id, before, how, .. } = f;
                    m.leave(id, before);
                    let r = Course {
                        stack,
                        turn: Turn::Returned(Some(p.rule)),
                        how,
                        nodes,
                        span,
                    };
                    proof {
                        assert(visiting@ =~= vis.update(id as int, false));
                        if !(how is Value) {
                            lemma_stack_grows(
                                w,
                                stack@,
                                f0.start@,
                                nodes@,
                                visiting@,
                                n0,
                                v0,
                            );
                        }
                        assert(course_left(r)[last] == 8);
                        assert(steps::is_less(course_left(r), given, last));
                    }
                    r
                } else {
                    nodes.truncate(f.mark);
                    let held = f.held;
                    f.k = f.k + 1;
                    f.begun = 0;
                    let ghost f1 = f;
                    stack.push(f);
                    let r = Course { stack, turn: Turn::Family, how, nodes, span: held };
                    proof {
                        assert(nodes@ =~= f0.start@);
                        lemma_stack_again(w, s0, f1, n1, vis, n0, v0);
                        assert(stack@ =~= s0.drop_last().push(f1));
                        assert(nodes@.take(nodes@.len() as int) =~= nodes@);
                        lemma_models_pop(stack@);
                        assert(course_left(r)[last] == open_left(f1));
                        assert forall|j: int| 0 <= j < last implies given[j]
                            == #[trigger] course_left(r)[j] by {
                            assert(stack@[j] == s0[j]);
                        }
                        assert(steps::is_less(course_left(r), given, last));
                    }
                    r
                }
            },
        }
    }

    /// Ends a node that the innermost open node waits for.
    #[verifier::rlimit(80)]
    fn step_returned(
        &self,
        c: Course,
        found: Option<usize>,
        m: &mut Memos,
        Ghost(vis): Ghost<Seq<bool>>,
        Ghost(n0): Ghost<Seq<Child>>,
        Ghost(v0): Ghost<Seq<bool>>,
    ) -> (r: Course)
        requires
            walk_ok(self.walk()),
            fits(self.walk(), old(m)@),
            course_ok(self.walk(), c, vis, n0, v0),
            c.turn == Turn::Returned(found),
            c.stack@.len() > 0,
        ensures
            fits(self.walk(), final(m)@),
            course_ok(self.walk(), r, vis, n0, v0),
            outcome(self.walk(), r, final(m)@, vis) == outcome(self.walk(), c, old(m)@, vis),
            exists|i: int| steps::is_less(course_left(r), course_left(c), i),
    {
        let ghost w = self.walk();
        let ghost m0 = m@;
        let ghost given = course_left(c);
        let Course { stack, turn: _, how, nodes, span } = c;
        let ghost s0 = stack@;
        let ghost b = buffer_of(nodes@, span);
        let ghost n1 = kept_nodes(how, nodes@);
        let mut nodes = nodes;
        let mut span = span;
        let f = &stack[stack.len() - 1];
        let ghost order = f.order@;
        let node = &self.forest.nodes[f.id];
        let p = node.families[f.order[f.k]];
        let turn: Turn;
        proof {
            lemma_models_pop(s0);
            assert(given[s0.len() as int] == 8);
            assert(w.forest.nodes[f.id as int] == node@);
            assert(earley_forest::families_ok(
                w.forest,
                w.rules.len(),
                w.forest.nodes[f.id as int],
            ));
            assert(earley_forest::packed_ok(
                w.forest,
                w.rules.len(),
                w.forest.nodes[f.id as int].families[order[f.k as int] as int],
            ));
            assert(family_of(w, open_model(s0.last())) == p);
            assert(n1.take(n1.len() as int) =~= n1);
        }
        match how {
            How::Left => {
                turn = if found.is_none() {
                    Turn::Settled(false)
                } else {
                    Turn::Right
                };
            },
            How::Splice => match found {
                None => {
                    turn = Turn::Settled(false);
                },
                Some(rule) => {
                    proof {
                        assert(w.rules[rule as int] == self.grammar.rules@[rule as int]@);
                    }
                    push_absents(&mut nodes, self.grammar.rules[rule].options.placeholder_count);
                    let ghost n2 = nodes@;
                    self.push_nones_before(
                        rule,
                        self.grammar.rules[rule].expansion.len(),
                        &mut nodes,
                    );
                    proof {
                        assert(tree::child_nodes(nodes@) =~= tree::child_nodes(n1)
                            + tree_builder::trailing_absents(w.rules[rule as int]));
                        lemma_continues_trans(n1, n2, nodes@);
                    }
                    turn = Turn::Settled(true);
                },
            },
            How::Value(kept, kept_span, id) => match found {
                None => {
                    nodes = kept;
                    span = kept_span;
                    turn = Turn::Settled(false);
                },
                Some(rule) => {
                    let builder = TreeOutputBuilder::with_propagate_positions(
                        &self.grammar.rules,
                        self.pp,
                    );
                    let built = builder.count_shape(
                        rule,
                        nodes.len(),
                        Ghost(tree::child_nodes(nodes@)),
                        m.work.built,
                    );
                    m.work = earley_rank::Work { built, ..m.work };
                    let v = builder.shape_with_container(rule, nodes, span);
                    let ghost vm = v@;
                    if m.seen[id] {
                        m.values.set(id, Some(copy_slot(&v)));
                        proof {
                            assert(m@.values =~= m0.values.update(id as int, Some(vm)));
                        }
                    } else {
                        m.seen.set(id, true);
                    }
                    nodes = kept;
                    span = kept_span;
                    self.push_value(p.rule, p.right_pos, v, &mut nodes, &mut span);
                    turn = Turn::Settled(true);
                },
            },
        }
        let r = Course { stack, turn, how: How::Left, nodes, span };
        proof {
            lemma_stack_grows(w, s0, n1, nodes@, vis, n0, v0);
            assert(steps::is_less(course_left(r), given, s0.len() as int));
        }
        r
    }

    /// Adds the children of the first derivation of a node that works out. The
    /// open nodes are kept on a stack of their own, so that a long chain of nodes
    /// does not nest calls.
    #[verifier::rlimit(60)]
    fn append_rule(
        &self,
        id: usize,
        nodes: &mut Vec<Child>,
        span: &mut ContainerSpan,
        m: &mut Memos,
        visiting: &mut Vec<bool>,
    ) -> (r: Option<usize>)
        requires
            walk_ok(self.walk()),
            fits(self.walk(), old(m)@),
            old(visiting)@.len() == self.walk().forest.nodes.len(),
            id < self.walk().forest.nodes.len(),
        ensures
            (index_option(r), buffer_of(final(nodes)@, *final(span)), final(m)@)
                == rule_appended(
                self.walk(),
                id as int,
                buffer_of(old(nodes)@, *old(span)),
                old(m)@,
                old(visiting)@,
            ),
            r is Some ==> r->0 < self.walk().rules.len(),
            continues(old(nodes)@, final(nodes)@),
            fits(self.walk(), final(m)@),
            final(visiting)@ == old(visiting)@,
        decreases bits::missing(old(visiting)@), 2nat,
    {
        let ghost w = self.walk();
        let ghost n0 = nodes@;
        let ghost v0 = visiting@;
        let ghost goal = rule_appended(w, id as int, buffer_of(n0, *span), m@, v0);
        let mut taken: Vec<Child> = Vec::new();
        std::mem::swap(&mut taken, nodes);
        let mut c = Course {
            stack: Vec::new(),
            turn: Turn::Enter(id),
            how: How::Left,
            nodes: taken,
            span: *span,
        };
        let ghost depth: nat = bits::missing(v0) + 1;
        proof {
            assert(n0.take(n0.len() as int) =~= n0);
            assert(open_models(c.stack@) =~= Seq::empty());
        }
        loop
            invariant
                w == self.walk(),
                walk_ok(w),
                fits(w, m@),
                v0 == old(visiting)@,
                n0 == old(nodes)@,
                depth == bits::missing(v0) + 1,
                course_ok(w, c, visiting@, n0, v0),
                outcome(w, c, m@, visiting@) == goal,
                goal == rule_appended(
                    w,
                    id as int,
                    buffer_of(n0, *old(span)),
                    old(m)@,
                    v0,
                ),
            decreases steps::measure(course_left(c), most_left(), depth, 0),
        {
            let ghost given = course_left(c);
            proof {
                lemma_stack_depth(w, c.stack@, kept_nodes(c.how, c.nodes@), visiting@, n0, v0);
            }
            let turn = c.turn;
            match turn {
                Turn::Enter(i) => {
                    c = self.step_enter(c, i, m, visiting, Ghost(n0), Ghost(v0));
                },
                Turn::Family => {
                    c = self.step_family(c, m, visiting, Ghost(n0), Ghost(v0));
                },
                Turn::Right => {
                    c = self.step_right(c, m, visiting, Ghost(n0), Ghost(v0));
                },
                Turn::Settled(ok) => {
                    c = self.step_settled(c, ok, m, visiting, Ghost(n0), Ghost(v0));
                },
                Turn::Returned(found) => {
                    if c.stack.len() == 0 {
                        let Course { nodes: built, span: seen, .. } = c;
                        *nodes = built;
                        *span = seen;
                        return found;
                    }
                    c = self.step_returned(c, found, m, Ghost(visiting@), Ghost(n0), Ghost(v0));
                },
            }
            proof {
                lemma_stack_depth(w, c.stack@, kept_nodes(c.how, c.nodes@), visiting@, n0, v0);
                let i = choose|i: int| steps::is_less(course_left(c), given, i);
                assert(steps::is_bounded(course_left(c), most_left(), depth));
                steps::lemma_less(course_left(c), given, most_left(), depth, i);
            }
        }
    }
}

/// A count with the values of lists added.
fn count_lists(lists: &Vec<Vec<Slot>>, n: u64) -> (r: u64)
    ensures
        r == perf::counted(n, lists_size(list_models(lists@), lists@.len())),
{
    let ghost ls = list_models(lists@);
    let mut r: u64 = n;
    let mut i: usize = 0;
    proof {
        perf::lemma_counted_nothing(n);
    }
    while i < lists.len()
        invariant
            i <= lists@.len(),
            ls == list_models(lists@),
            r == perf::counted(n, lists_size(ls, i as nat)),
        decreases lists.len() - i,
    {
        let len: usize = lists[i].len();
        proof {
            assert(ls[i as int].len() == len);
            perf::lemma_counted(n, lists_size(ls, i as nat), len as nat);
        }
        r = perf::count(r, len as u64);
        i = i + 1;
    }
    r
}

/// A count with the children of values added.
fn count_values(ds: &Vec<Slot>, n: u64) -> (r: u64)
    ensures
        r == perf::counted(n, values_size(tree_builder::slot_models(ds@), ds@.len())),
{
    let ghost vs = tree_builder::slot_models(ds@);
    let mut r: u64 = n;
    let mut i: usize = 0;
    proof {
        perf::lemma_counted_nothing(n);
    }
    while i < ds.len()
        invariant
            i <= ds@.len(),
            vs == tree_builder::slot_models(ds@),
            r == perf::counted(n, values_size(vs, i as nat)),
        decreases ds.len() - i,
    {
        let len: usize = match &ds[i] {
            Slot::Token(_) => 1,
            Slot::Tree(t) => {
                proof {
                    tree::tree_node_children(*t);
                }
                t.children.len()
            },
            Slot::Inline(cs) => cs.len(),
        };
        proof {
            assert(vs[i as int] == ds@[i as int]@);
            assert(value_size(vs[i as int]) == len);
            perf::lemma_counted(n, values_size(vs, i as nat), len as nat);
        }
        r = perf::count(r, len as u64);
        i = i + 1;
    }
    r
}

/// A value as a child of an ambiguity node.
fn node_value_to_child(v: Slot) -> (r: Child)
    ensures
        r@ == as_child(v@),
{
    match v {
        Slot::Tree(t) => Child::Tree(t),
        Slot::Token(t) => Child::Token(t),
        Slot::Inline(cs) => {
            let mut cs = cs;
            if cs.len() == 1 {
                let ghost ns = tree::child_nodes(cs@);
                proof {
                    assert(ns[0] == cs@[0]@);
                }
                cs.remove(0)
            } else {
                Child::Tree(Tree::new(owned("_ambig"), cs))
            }
        },
    }
}

/// A child of an ambiguity node as a value.
fn child_to_node_value(c: Child) -> (r: Slot)
    ensures
        r@ == as_value(c@),
{
    match c {
        Child::Tree(t) => Slot::Tree(t),
        Child::Token(t) => Slot::Token(t),
        Child::Absent => {
            let mut cs: Vec<Child> = Vec::new();
            cs.push(Child::Absent);
            proof {
                assert(tree::child_nodes(cs@) =~= seq![tree::Node::Absent]);
            }
            Slot::Inline(cs)
        },
    }
}

/// Derivations as one value.
fn beside(ds: Vec<Slot>) -> (r: Option<Slot>)
    ensures
        slot_option(r) == side_by_side(tree_builder::slot_models(ds@)),
{
    let ghost models = tree_builder::slot_models(ds@);
    let mut ds = ds;
    if ds.len() == 0 {
        None
    } else if ds.len() == 1 {
        proof {
            assert(models[0] == ds@[0]@);
        }
        Some(ds.remove(0))
    } else {
        let ghost given = ds@;
        let mut children: Vec<Child> = Vec::new();
        for v in it: ds
            invariant
                it.seq() == given,
                models == tree_builder::slot_models(given),
                tree::child_nodes(children@) == Seq::new(
                    it.index() as nat,
                    |i: int| as_child(models[i]),
                ),
        {
            proof {
                assert(models[it.index()] == v@);
            }
            let ghost before = children@;
            let c = node_value_to_child(v);
            children.push(c);
            proof {
                assert(tree::child_nodes(children@) =~= tree::child_nodes(before).push(c@));
                assert(tree::child_nodes(children@) =~= Seq::new(
                    (it.index() + 1) as nat,
                    |i: int| as_child(models[i]),
                ));
            }
        }
        proof {
            assert(tree::child_nodes(children@) =~= Seq::new(
                models.len(),
                |i: int| as_child(models[i]),
            ));
        }
        Some(Slot::Tree(Tree::new(owned("_ambig"), children)))
    }
}

/// Adds a value unless one with the same key is there.
fn push_deduped(ds: &mut Vec<Slot>, v: Slot)
    ensures
        tree_builder::slot_models(final(ds)@) == deduped(
            tree_builder::slot_models(old(ds)@),
            v@,
        ),
        final(ds)@.len() >= old(ds)@.len(),
{
    let ghost models = tree_builder::slot_models(ds@);
    let key = node_value_key(&v);
    let mut i: usize = 0;
    while i < ds.len()
        invariant
            i <= ds@.len(),
            ds@ == old(ds)@,
            models == tree_builder::slot_models(ds@),
            key@ == value_key::value_key(v@),
            forall|k: int|
                0 <= k < i ==> value_key::value_key(#[trigger] models[k])
                    != value_key::value_key(v@),
        decreases ds.len() - i,
    {
        let other = node_value_key(&ds[i]);
        proof {
            assert(models[i as int] == ds@[i as int]@);
        }
        if other == key {
            return;
        }
        i = i + 1;
    }
    let ghost before = ds@;
    ds.push(v);
    proof {
        assert(tree_builder::slot_models(ds@) =~= models.push(v@));
    }
}

/// Adds the outcome of one derivation.
fn add_outcome(ds: &mut Vec<Slot>, v: Slot)
    ensures
        tree_builder::slot_models(final(ds)@) == outcome_added(
            tree_builder::slot_models(old(ds)@),
            v@,
        ),
        final(ds)@.len() >= old(ds)@.len(),
{
    match v {
        Slot::Tree(t) => {
            proof {
                tree::tree_node_children(t);
            }
            let data = owned("_ambig");
            if t.data == data && t.children.len() > 0 {
                let ghost given = t.children@;
                let ghost ns = tree::child_nodes(given);
                let ghost d0 = tree_builder::slot_models(ds@);
                for c in it: t.children
                    invariant
                        it.seq() == given,
                        ns == tree::child_nodes(given),
                        ds@.len() >= d0.len(),
                        tree_builder::slot_models(ds@) == alternatives_added(
                            d0,
                            ns,
                            it.index() as nat,
                        ),
                {
                    proof {
                        assert(ns[it.index()] == c@);
                    }
                    push_deduped(ds, child_to_node_value(c));
                }
            } else {
                push_deduped(ds, Slot::Tree(t));
            }
        },
        v => push_deduped(ds, v),
    }
}

/// Each of the lists with each of the values behind it; the values copied are
/// counted.
fn combine(lefts: &Vec<Vec<Slot>>, rights: &Vec<Slot>, m: &mut Memos) -> (r: Vec<Vec<Slot>>)
    ensures
        list_models(r@) == combined(
            list_models(lefts@),
            tree_builder::slot_models(rights@),
            lefts@.len(),
        ),
        final(m)@ == copies_counted(
            old(m)@,
            copies(list_models(lefts@), rights@.len(), lefts@.len()),
        ),
{
    let ghost ls = list_models(lefts@);
    let ghost rs = tree_builder::slot_models(rights@);
    let ghost n = rights@.len();
    let mut out: Vec<Vec<Slot>> = Vec::new();
    let first: u64 = m.work.copies;
    let mut copied: u64 = first;
    let mut i: usize = 0;
    proof {
        assert(list_models(out@) =~= Seq::empty());
        perf::lemma_counted_nothing(first);
    }
    while i < lefts.len()
        invariant
            i <= lefts@.len(),
            n == rights@.len(),
            ls == list_models(lefts@),
            rs == tree_builder::slot_models(rights@),
            list_models(out@) == combined(ls, rs, i as nat),
            copied == perf::counted(first, copies(ls, n, i as nat)),
        decreases lefts.len() - i,
    {
        let ghost head = list_models(out@);
        let ghost done = copies(ls, n, i as nat);
        let len: usize = lefts[i].len();
        let mut j: usize = 0;
        proof {
            assert(head + Seq::new(0, |k: int| ls[i as int].push(rs[k])) =~= head);
            assert(ls[i as int].len() == len);
            assert(len * 0 == 0);
        }
        while j < rights.len()
            invariant
                i < lefts@.len(),
                j <= rights@.len(),
                len == lefts@[i as int]@.len(),
                ls == list_models(lefts@),
                rs == tree_builder::slot_models(rights@),
                list_models(out@) == head + Seq::new(
                    j as nat,
                    |k: int| ls[i as int].push(rs[k]),
                ),
                copied == perf::counted(first, (done + len * j) as nat),
            decreases rights.len() - j,
        {
            let ghost before = out@;
            let mut l = copy_slots(&lefts[i]);
            let ghost l0 = l@;
            let v = copy_slot(&rights[j]);
            l.push(v);
            proof {
                assert(tree_builder::slot_models(l@) =~= tree_builder::slot_models(l0).push(v@));
                assert(ls[i as int] == tree_builder::slot_models(lefts@[i as int]@));
                assert(rs[j as int] == rights@[j as int]@);
            }
            out.push(l);
            proof {
                assert(list_models(out@) =~= list_models(before).push(
                    tree_builder::slot_models(l@),
                ));
                assert(list_models(out@) =~= head + Seq::new(
                    (j + 1) as nat,
                    |k: int| ls[i as int].push(rs[k]),
                ));
                assert(len * (j + 1) == len * j + len) by (nonlinear_arith);
                assert(len * j >= 0) by (nonlinear_arith);
                perf::lemma_counted(first, (done + len * j) as nat, len as nat);
            }
            copied = perf::count(copied, len as u64);
            j = j + 1;
        }
        proof {
            assert(list_models(out@) =~= combined(ls, rs, (i + 1) as nat));
            assert(ls[i as int].len() == len);
        }
        i = i + 1;
    }
    m.work = earley_rank::Work { copies: copied, ..m.work };
    out
}

} // verus!
