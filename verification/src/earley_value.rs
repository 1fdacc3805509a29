//! What the tree of a parse forest means: where one derivation is chosen, the
//! value of a node is that of a derivation of the tokens that it spans.

use vstd::prelude::*;
use crate::bits;
use crate::derivation;
use crate::earley_chart;
use crate::earley_forest::{ForestRef, Item, NodeKey, Packed};
use crate::earley_rank;
use crate::earley_shape;
use crate::earley_tree;
use crate::empty_values;
use crate::symbols;
use crate::symbols::SymbolId;
use crate::tree;
use crate::tree_builder;
use crate::tree_builder::ContainerSpan;

verus! {

/// Whether no rule is transparent.
pub open spec fn is_opaque(rules: Seq<symbols::RuleModel>) -> bool {
    forall|r: int| 0 <= r < rules.len() ==> !(#[trigger] rules[r]).transparent
}

/// Whether a walk is one over a forest in shape that chooses one derivation.
pub open spec fn is_walk(
    g: earley_chart::Context,
    gr: earley_shape::Ground,
    w: earley_rank::Walk,
) -> bool {
    &&& earley_chart::context_ok(g)
    &&& w.resolve
    &&& w.rules == g.rules
    &&& symbols::is_uniform(g.rules)
    &&& w.pp ==> is_opaque(g.rules)
    &&& earley_shape::families_fit(g, gr, w.forest)
    &&& gr.loose ==> gaps_join(gr)
    &&& earley_shape::within_limits(w.forest)
}

/// The tokens between two positions.
pub open spec fn tokens_of(w: earley_rank::Walk, start: usize, end: usize) -> Seq<
    tree::TokenModel,
> {
    w.forest.tokens.subrange(start as int, end as int)
}

/// Whether what is ignored may follow what is ignored.
pub open spec fn gaps_join(gr: earley_shape::Ground) -> bool {
    forall|a: int, b: int, c: int| #[trigger]
        (gr.gap)(a, b) && #[trigger] (gr.gap)(b, c) ==> (gr.gap)(a, c)
}

/// Whether nothing but what is ignored lies from `a` to `b`.
pub open spec fn is_void(gr: earley_shape::Ground, a: int, b: int) -> bool {
    a == b || (gr.gap)(a, b)
}

/// Whether tokens lie from `a` to `b`, with only what is ignored before, between
/// and after them.
pub open spec fn is_strung(
    gr: earley_shape::Ground,
    a: int,
    b: int,
    ts: Seq<tree::TokenModel>,
) -> bool
    decreases ts.len(),
{
    if ts.len() == 0 {
        is_void(gr, a, b)
    } else {
        exists|c: int, d: int|
            is_strung(gr, a, c, ts.drop_last()) && #[trigger] ends_with(gr, c, d, b, ts.last())
    }
}

/// Whether a token lies, behind what is ignored, from `c` to `d`, and nothing but
/// what is ignored from there to `b`.
pub open spec fn ends_with(
    gr: earley_shape::Ground,
    c: int,
    d: int,
    b: int,
    t: tree::TokenModel,
) -> bool {
    (gr.token)(c, t, d) && is_void(gr, d, b)
}

/// Whether `ts` are tokens between two positions.
pub open spec fn are_between(
    gr: earley_shape::Ground,
    w: earley_rank::Walk,
    start: usize,
    end: usize,
    ts: Seq<tree::TokenModel>,
) -> bool {
    if gr.loose {
        is_strung(gr, start as int, end as int, ts)
    } else {
        start <= end <= w.forest.tokens.len() && ts == tokens_of(w, start, end)
    }
}

pub proof fn lemma_strung_void(
    gr: earley_shape::Ground,
    a: int,
    b: int,
    c: int,
    ts: Seq<tree::TokenModel>,
)
    requires
        gaps_join(gr),
        is_strung(gr, a, b, ts),
        is_void(gr, b, c),
    ensures
        is_strung(gr, a, c, ts),
{
    if ts.len() > 0 {
        let (x, y) = choose|x: int, y: int|
            is_strung(gr, a, x, ts.drop_last()) && #[trigger] ends_with(gr, x, y, b, ts.last());
        assert(ends_with(gr, x, y, c, ts.last()));
    }
}

proof fn lemma_strung_on(
    gr: earley_shape::Ground,
    a: int,
    b: int,
    c: int,
    ts: Seq<tree::TokenModel>,
    us: Seq<tree::TokenModel>,
)
    requires
        gaps_join(gr),
        is_strung(gr, a, b, ts),
        is_strung(gr, b, c, us),
    ensures
        is_strung(gr, a, c, ts + us),
    decreases us.len(),
{
    if us.len() == 0 {
        lemma_strung_void(gr, a, b, c, ts);
        assert(ts + us =~= ts);
    } else {
        let (x, y) = choose|x: int, y: int|
            is_strung(gr, b, x, us.drop_last()) && #[trigger] ends_with(gr, x, y, c, us.last());
        lemma_strung_on(gr, a, b, x, ts, us.drop_last());
        assert((ts + us).drop_last() =~= ts + us.drop_last());
        assert((ts + us).last() == us.last());
        assert(ends_with(gr, x, y, c, (ts + us).last()));
    }
}

/// Tokens between positions, one stretch after the other.
proof fn lemma_between_on(
    gr: earley_shape::Ground,
    w: earley_rank::Walk,
    a: usize,
    b: usize,
    c: usize,
    ts: Seq<tree::TokenModel>,
    us: Seq<tree::TokenModel>,
)
    requires
        gr.loose ==> gaps_join(gr),
        are_between(gr, w, a, b, ts),
        are_between(gr, w, b, c, us),
    ensures
        are_between(gr, w, a, c, ts + us),
{
    if gr.loose {
        lemma_strung_on(gr, a as int, b as int, c as int, ts, us);
    } else {
        assert(tokens_of(w, a, b) + tokens_of(w, b, c) =~= tokens_of(w, a, c));
    }
}

/// Whether `s` derives tokens between two positions by a derivation that has the
/// value `v`.
pub open spec fn is_valued(
    g: earley_chart::Context,
    gr: earley_shape::Ground,
    w: earley_rank::Walk,
    s: SymbolId,
    start: usize,
    end: usize,
    v: tree_builder::SlotModel,
) -> bool {
    exists|ts: Seq<tree::TokenModel>| #[trigger]
        are_between(gr, w, start, end, ts) && derivation::yields(g.rules, g.nt, w.pp, s, ts, v)
}

/// The span once values are seen, where spans cover all that is matched.
pub open spec fn span_after(
    pp: bool,
    c: ContainerSpan,
    vs: Seq<tree_builder::SlotModel>,
) -> ContainerSpan
    decreases vs.len(),
{
    if !pp || vs.len() == 0 {
        c
    } else {
        let b = span_after(pp, c, vs.drop_last());
        match vs.last() {
            tree_builder::SlotModel::Value(n) => tree_builder::observed_node(b, n),
            tree_builder::SlotModel::Inline(ns) => tree_builder::observed_nodes(b, ns),
        }
    }
}

proof fn lemma_span_after(vs: Seq<tree_builder::SlotModel>)
    ensures
        span_after(true, tree_builder::no_span(), vs) == tree_builder::slots_span(vs),
    decreases vs.len(),
{
    if vs.len() > 0 {
        lemma_span_after(vs.drop_last());
    }
}

/// Whether `vs` are the values of a derivation of the tokens between two
/// positions by the first `dot` symbols of a rule.
pub open spec fn is_part(
    g: earley_chart::Context,
    gr: earley_shape::Ground,
    w: earley_rank::Walk,
    rule: int,
    dot: int,
    start: usize,
    end: usize,
    vs: Seq<tree_builder::SlotModel>,
) -> bool {
    &&& 0 <= rule < g.rules.len()
    &&& 0 <= dot <= g.rules[rule].expansion.len()
    &&& exists|ts: Seq<tree::TokenModel>| #[trigger]
        are_between(gr, w, start, end, ts) && derivation::yields_all(
            g.rules,
            g.nt,
            w.pp,
            g.rules[rule].expansion.take(dot),
            ts,
            vs,
        )
}

/// Whether `c` is `b` with the children that a rule makes of values.
pub open spec fn is_filled(
    g: earley_chart::Context,
    w: earley_rank::Walk,
    rule: int,
    vs: Seq<tree_builder::SlotModel>,
    b: earley_tree::Buffer,
    c: earley_tree::Buffer,
) -> bool {
    &&& c.nodes == b.nodes + tree_builder::kept_children(g.rules[rule], vs)
    &&& c.span == span_after(w.pp, b.span, vs)
}

/// Whether `c` is `b` with the children of a derivation of what a node spans, by
/// the part of `rule` that the node stands for.
pub open spec fn is_built(
    g: earley_chart::Context,
    gr: earley_shape::Ground,
    w: earley_rank::Walk,
    id: int,
    rule: int,
    b: earley_tree::Buffer,
    c: earley_tree::Buffer,
) -> bool {
    let n = w.forest.nodes[id];
    exists|dot: int, vs: Seq<tree_builder::SlotModel>| #[trigger]
        is_part(g, gr, w, rule, dot, n.start, n.end, vs) && n.key == earley_chart::key_at(
            g,
            rule as usize,
            dot,
        ) && is_filled(g, w, rule, vs, b, c)
}

/// Whether a node's value is that of a derivation of what the node spans.
pub open spec fn is_value(
    g: earley_chart::Context,
    gr: earley_shape::Ground,
    w: earley_rank::Walk,
    id: int,
    v: tree_builder::SlotModel,
) -> bool {
    let n = w.forest.nodes[id];
    n.key matches NodeKey::Sym(s) ==> is_valued(g, gr, w, s, n.start, n.end, v)
}

/// Whether the values found so far are those of derivations.
pub open spec fn is_found(
    g: earley_chart::Context,
    gr: earley_shape::Ground,
    w: earley_rank::Walk,
    m: earley_rank::Found,
) -> bool {
    &&& m.values.len() == w.forest.nodes.len()
    &&& forall|id: int|
        0 <= id < m.values.len() ==> (#[trigger] m.values[id] matches Some(v) ==> is_value(
            g,
            gr,
            w,
            id,
            v,
        ))
}

/// Whether a node is in the forest and spans tokens of it.
pub open spec fn is_node(gr: earley_shape::Ground, w: earley_rank::Walk, id: int) -> bool {
    &&& 0 <= id < w.forest.nodes.len()
    &&& w.forest.nodes[id].start <= w.forest.nodes[id].end
    &&& gr.loose || w.forest.nodes[id].end <= w.forest.tokens.len()
}

/// A symbol's node that is built has the value that the rule shapes.
proof fn lemma_shaped(
    g: earley_chart::Context,
    gr: earley_shape::Ground,
    w: earley_rank::Walk,
    id: int,
    rule: int,
    b: earley_tree::Buffer,
)
    requires
        is_walk(g, gr, w),
        is_node(gr, w, id),
        is_built(g, gr, w, id, rule, earley_tree::blank_buffer(), b),
    ensures
        is_value(g, gr, w, id, tree_builder::shaped(w.rules[rule], w.pp, b.nodes, b.span)),
{
    let n = w.forest.nodes[id];
    let blank = earley_tree::blank_buffer();
    let (dot, vs) = choose|dot: int, vs: Seq<tree_builder::SlotModel>| #[trigger]
        is_part(g, gr, w, rule, dot, n.start, n.end, vs) && n.key == earley_chart::key_at(
            g,
            rule as usize,
            dot,
        ) && is_filled(g, w, rule, vs, blank, b);
    if let NodeKey::Sym(s) = n.key {
        let e = g.rules[rule].expansion;
        assert(e.take(dot) =~= e);
        assert(b.nodes =~= tree_builder::kept_children(g.rules[rule], vs));
        lemma_span_after(vs);
        let ts = choose|ts: Seq<tree::TokenModel>| #[trigger]
            are_between(gr, w, n.start, n.end, ts) && derivation::yields_all(
                g.rules,
                g.nt,
                w.pp,
                e,
                ts,
                vs,
            );
        derivation::lemma_yields_rule(g.rules, g.nt, w.pp, rule, ts, vs);
        assert(tree_builder::shaped(w.rules[rule], w.pp, b.nodes, b.span)
            == tree_builder::assembled(g.rules[rule], w.pp, vs));
    }
}

/// A part of a rule with one more symbol.
pub proof fn lemma_part_push(
    g: earley_chart::Context,
    gr: earley_shape::Ground,
    w: earley_rank::Walk,
    rule: int,
    pos: int,
    start: usize,
    mid: usize,
    end: usize,
    vs: Seq<tree_builder::SlotModel>,
    v: tree_builder::SlotModel,
)
    requires
        is_part(g, gr, w, rule, pos, start, mid, vs),
        pos < g.rules[rule].expansion.len(),
        gr.loose ==> gaps_join(gr),
        is_valued(g, gr, w, g.rules[rule].expansion[pos], mid, end, v),
    ensures
        vs.len() == pos,
        is_part(g, gr, w, rule, pos + 1, start, end, vs.push(v)),
        tree_builder::kept_children(g.rules[rule], vs.push(v)) == tree_builder::kept_children(
            g.rules[rule],
            vs,
        ) + tree_builder::absents(symbols::nones_at(g.rules[rule], pos))
            + tree_builder::slot_children(g.rules[rule], pos, v),
{
    let e = g.rules[rule].expansion;
    let ts = choose|ts: Seq<tree::TokenModel>| #[trigger]
        are_between(gr, w, start, mid, ts) && derivation::yields_all(
            g.rules,
            g.nt,
            w.pp,
            e.take(pos),
            ts,
            vs,
        );
    let us = choose|us: Seq<tree::TokenModel>| #[trigger]
        are_between(gr, w, mid, end, us) && derivation::yields(
            g.rules,
            g.nt,
            w.pp,
            e[pos],
            us,
            v,
        );
    derivation::lemma_yields_len(g.rules, g.nt, w.pp, e.take(pos), ts, vs);
    derivation::lemma_yields_push(g.rules, g.nt, w.pp, e.take(pos), ts, vs, e[pos], us, v);
    assert(e.take(pos).push(e[pos]) =~= e.take(pos + 1));
    lemma_between_on(gr, w, start, mid, end, ts, us);
    assert(vs.push(v).drop_last() =~= vs);
}

/// The value of a node is that of a derivation.
proof fn lemma_node_value(
    g: earley_chart::Context,
    gr: earley_shape::Ground,
    w: earley_rank::Walk,
    id: int,
    m: earley_rank::Found,
    visiting: Seq<bool>,
)
    requires
        is_walk(g, gr, w),
        is_node(gr, w, id),
        is_found(g, gr, w, m),
    ensures
        ({
            let (v, m1) = earley_tree::node_value(w, id, m, visiting);
            &&& is_found(g, gr, w, m1)
            &&& v matches Some(x) ==> is_value(g, gr, w, id, x)
        }),
    decreases bits::missing(visiting), 3nat, 0nat,
{
    if !(m.values[id] is Some) {
        let blank = earley_tree::blank_buffer();
        lemma_rule_appended(g, gr, w, id, blank, m, visiting);
        let (r, b, m1) = earley_tree::rule_appended(w, id, blank, m, visiting);
        if let Some(rule) = r {
            lemma_shaped(g, gr, w, id, rule, b);
            let (v, m2) = earley_tree::node_value(w, id, m, visiting);
            assert forall|j: int| 0 <= j < m2.values.len() implies (
            #[trigger] m2.values[j] matches Some(x) ==> is_value(g, gr, w, j, x)) by {
                if j != id {
                    assert(m2.values[j] == m1.values[j]);
                }
            }
        }
    }
}

/// What is appended for a node are the children of a derivation.
proof fn lemma_rule_appended(
    g: earley_chart::Context,
    gr: earley_shape::Ground,
    w: earley_rank::Walk,
    id: int,
    b: earley_tree::Buffer,
    m: earley_rank::Found,
    visiting: Seq<bool>,
)
    requires
        is_walk(g, gr, w),
        is_node(gr, w, id),
        is_found(g, gr, w, m),
    ensures
        ({
            let (r, b1, m1) = earley_tree::rule_appended(w, id, b, m, visiting);
            &&& is_found(g, gr, w, m1)
            &&& r matches Some(rule) ==> is_built(g, gr, w, id, rule, b, b1)
        }),
    decreases bits::missing(visiting), 2nat, 0nat,
{
    if 0 <= id < visiting.len() && !visiting[id] {
        let (order, prio) = earley_rank::tried(w, id, m.prio);
        let fs = w.forest.nodes[id].families;
        let vs = earley_rank::family_priorities(w, id, m.prio, fs.len()).0;
        earley_rank::lemma_in_order(w, fs, vs, fs.len());
        empty_values::lemma_visit(visiting, id);
        lemma_families_tried(
            g,
            gr,
            w,
            id,
            order,
            0,
            b,
            earley_rank::entered(m, prio),
            visiting.update(id, true),
        );
    }
}

proof fn lemma_families_tried(
    g: earley_chart::Context,
    gr: earley_shape::Ground,
    w: earley_rank::Walk,
    id: int,
    order: Seq<usize>,
    k: nat,
    b: earley_tree::Buffer,
    m: earley_rank::Found,
    visiting: Seq<bool>,
)
    requires
        is_walk(g, gr, w),
        is_node(gr, w, id),
        is_found(g, gr, w, m),
        forall|i: int|
            0 <= i < order.len() ==> #[trigger] order[i] < w.forest.nodes[id].families.len(),
    ensures
        ({
            let (r, b1, m1) = earley_tree::families_tried(w, id, order, k, b, m, visiting);
            &&& is_found(g, gr, w, m1)
            &&& r matches Some(rule) ==> is_built(g, gr, w, id, rule, b, b1)
        }),
    decreases bits::missing(visiting), 7nat, order.len() - k,
{
    if k < order.len() {
        let p = w.forest.nodes[id].families[order[k as int] as int];
        assert(earley_shape::is_family(g, gr, w.forest, w.forest.nodes[id], p));
        lemma_packed_appended(g, gr, w, id, p, b, m, visiting);
        let (ok, _b1, m1) = earley_tree::packed_appended(w, p, b, m, visiting);
        if !ok {
            lemma_families_tried(g, gr, w, id, order, k + 1, b, m1, visiting);
        }
    }
}

proof fn lemma_packed_appended(
    g: earley_chart::Context,
    gr: earley_shape::Ground,
    w: earley_rank::Walk,
    id: int,
    p: Packed,
    b: earley_tree::Buffer,
    m: earley_rank::Found,
    visiting: Seq<bool>,
)
    requires
        is_walk(g, gr, w),
        is_node(gr, w, id),
        is_found(g, gr, w, m),
        earley_shape::is_family(g, gr, w.forest, w.forest.nodes[id], p),
    ensures
        ({
            let (ok, b1, m1) = earley_tree::packed_appended(w, p, b, m, visiting);
            &&& is_found(g, gr, w, m1)
            &&& ok ==> is_built(g, gr, w, id, p.rule as int, b, b1)
        }),
    decreases bits::missing(visiting), 6nat, 0nat,
{
    let n = w.forest.nodes[id];
    let rule = p.rule as int;
    let e = g.rules[rule].expansion;
    let mid = earley_shape::mid_of(w.forest, n, p);
    match p.left {
        ForestRef::Nothing => {
            let none = Seq::<tree_builder::SlotModel>::empty();
            derivation::lemma_yields_nothing(g.rules, g.nt, w.pp);
            assert(e.take(0) =~= Seq::empty());
            let blank = Seq::<tree::TokenModel>::empty();
            if !gr.loose {
                assert(tokens_of(w, n.start, n.start) =~= Seq::empty());
            }
            assert(are_between(gr, w, n.start, n.start, blank));
            assert(is_part(g, gr, w, rule, 0, n.start, n.start, none));
            assert(b.nodes + tree_builder::kept_children(g.rules[rule], none) =~= b.nodes);
            assert(is_filled(g, w, rule, none, b, b));
            if p.right is Nothing {
                assert(are_between(gr, w, n.start, n.end, blank));
                assert(is_part(g, gr, w, rule, 0, n.start, n.end, none));
                assert(is_built(g, gr, w, id, rule, b, b));
            } else {
                lemma_right_appended(g, gr, w, id, p, none, b, b, m, visiting);
            }
        },
        ForestRef::Node(l) => {
            lemma_rule_appended(g, gr, w, l as int, b, m, visiting);
            let (r, b1, m1) = earley_tree::rule_appended(w, l as int, b, m, visiting);
            if let Some(q) = r {
                let c = w.forest.nodes[l as int];
                let (dot, vs) = choose|dot: int, vs: Seq<tree_builder::SlotModel>| #[trigger]
                    is_part(g, gr, w, q, dot, c.start, c.end, vs) && c.key == earley_chart::key_at(
                        g,
                        q as usize,
                        dot,
                    ) && is_filled(g, w, q, vs, b, b1);
                assert(q == rule && dot == p.right_pos);
                lemma_right_appended(g, gr, w, id, p, vs, b, b1, m1, visiting);
            }
        },
        ForestRef::Tok(t) => {},
    }
}

proof fn lemma_right_appended(
    g: earley_chart::Context,
    gr: earley_shape::Ground,
    w: earley_rank::Walk,
    id: int,
    p: Packed,
    vs: Seq<tree_builder::SlotModel>,
    first: earley_tree::Buffer,
    b: earley_tree::Buffer,
    m: earley_rank::Found,
    visiting: Seq<bool>,
)
    requires
        is_walk(g, gr, w),
        is_node(gr, w, id),
        is_found(g, gr, w, m),
        earley_shape::is_family(g, gr, w.forest, w.forest.nodes[id], p),
        !(p.right is Nothing),
        is_part(
            g,
            gr,
            w,
            p.rule as int,
            p.right_pos as int,
            w.forest.nodes[id].start,
            earley_shape::mid_of(w.forest, w.forest.nodes[id], p),
            vs,
        ),
        is_filled(g, w, p.rule as int, vs, first, b),
    ensures
        ({
            let (ok, b1, m1) = earley_tree::right_appended(w, p, b, m, visiting);
            &&& is_found(g, gr, w, m1)
            &&& ok ==> is_built(g, gr, w, id, p.rule as int, first, b1)
        }),
    decreases bits::missing(visiting), 5nat, 0nat,
{
    let n = w.forest.nodes[id];
    let mid = earley_shape::mid_of(w.forest, n, p);
    let rule = p.rule as int;
    let pos = p.right_pos as int;
    let gap = earley_tree::with_gap(w, b, rule, pos);
    match p.right {
        ForestRef::Nothing => {},
        ForestRef::Tok(t) => {
            let tok = w.forest.tokens[t as int];
            derivation::lemma_yields_token(g.rules, g.nt, w.pp, tok);
            let one = seq![tok];
            if gr.loose {
                let stop = choose|stop: int| #[trigger]
                    earley_shape::token_to(g, gr, n, mid as int, tok, stop);
                assert(one.drop_last() =~= Seq::empty());
                assert(is_strung(gr, mid as int, mid as int, one.drop_last()));
                assert(ends_with(gr, mid as int, stop, n.end as int, one.last()));
            } else {
                assert(tokens_of(w, mid, n.end) =~= one);
            }
            assert(are_between(gr, w, mid, n.end, one));
            let v = earley_tree::token_value(w, t as int);
            lemma_extended(g, gr, w, id, p, vs, v, first, b);
        },
        ForestRef::Node(c) => {
            let s = g.rules[rule].expansion[pos];
            if earley_tree::is_transparent(w, c as int) {
                lemma_rule_appended(g, gr, w, c as int, gap, m, visiting);
                let (r, b1, m1) = earley_tree::rule_appended(w, c as int, gap, m, visiting);
                if let Some(q) = r {
                    let v = lemma_spliced(g, gr, w, c as int, q, gap, b1);
                    lemma_valued_on(g, gr, w, id, p, c, v);
                    lemma_extended(g, gr, w, id, p, vs, v, first, b);
                    let (ok, b2, m2) = earley_tree::right_appended(w, p, b, m, visiting);
                    assert(b2 == earley_tree::with_value(w, gap, rule, pos, v));
                }
            } else {
                lemma_node_value(g, gr, w, c as int, m, visiting);
                let (v, m1) = earley_tree::node_value(w, c as int, m, visiting);
                if let Some(x) = v {
                    assert(is_value(g, gr, w, c as int, x));
                    lemma_valued_on(g, gr, w, id, p, c, x);
                    lemma_extended(g, gr, w, id, p, vs, x, first, b);
                }
            }
        },
    }
}

/// The value of the last symbol of a family, up to the end of the node.
proof fn lemma_valued_on(
    g: earley_chart::Context,
    gr: earley_shape::Ground,
    w: earley_rank::Walk,
    id: int,
    p: Packed,
    c: usize,
    v: tree_builder::SlotModel,
)
    requires
        is_walk(g, gr, w),
        is_node(gr, w, id),
        earley_shape::is_family(g, gr, w.forest, w.forest.nodes[id], p),
        p.right == ForestRef::Node(c),
        is_value(g, gr, w, c as int, v),
    ensures
        is_valued(
            g,
            gr,
            w,
            g.rules[p.rule as int].expansion[p.right_pos as int],
            earley_shape::mid_of(w.forest, w.forest.nodes[id], p),
            w.forest.nodes[id].end,
            v,
        ),
{
    let n = w.forest.nodes[id];
    let mid = earley_shape::mid_of(w.forest, n, p);
    let stop = earley_shape::stop_of(w.forest, n, p);
    let s = g.rules[p.rule as int].expansion[p.right_pos as int];
    let ts = choose|ts: Seq<tree::TokenModel>| #[trigger]
        are_between(gr, w, mid, stop, ts) && derivation::yields(g.rules, g.nt, w.pp, s, ts, v);
    if gr.loose {
        lemma_strung_void(gr, mid as int, stop as int, n.end as int, ts);
    }
    assert(are_between(gr, w, mid, n.end, ts));
}

/// The value of a transparent node that is built.
proof fn lemma_spliced(
    g: earley_chart::Context,
    gr: earley_shape::Ground,
    w: earley_rank::Walk,
    id: int,
    rule: int,
    b: earley_tree::Buffer,
    c: earley_tree::Buffer,
) -> (v: tree_builder::SlotModel)
    requires
        is_walk(g, gr, w),
        is_node(gr, w, id),
        w.forest.nodes[id].key is Sym,
        earley_tree::is_transparent(w, id),
        is_built(g, gr, w, id, rule, b, c),
    ensures
        !w.pp,
        is_value(g, gr, w, id, v),
        v is Inline,
        c.nodes + tree_builder::trailing_absents(g.rules[rule]) == b.nodes + v->Inline_0,
        c.span == b.span,
{
    let n = w.forest.nodes[id];
    let (dot, vs) = choose|dot: int, vs: Seq<tree_builder::SlotModel>| #[trigger]
        is_part(g, gr, w, rule, dot, n.start, n.end, vs) && n.key == earley_chart::key_at(
            g,
            rule as usize,
            dot,
        ) && is_filled(g, w, rule, vs, b, c);
    let first = n.families[0];
    assert(earley_shape::is_family(g, gr, w.forest, n, first));
    assert(g.rules[first.rule as int].origin == g.rules[rule].origin);
    assert(g.rules[rule].transparent);
    assert(!w.pp);
    let e = g.rules[rule].expansion;
    assert(e.take(dot) =~= e);
    let ts = choose|ts: Seq<tree::TokenModel>| #[trigger]
        are_between(gr, w, n.start, n.end, ts) && derivation::yields_all(
            g.rules,
            g.nt,
            w.pp,
            e,
            ts,
            vs,
        );
    derivation::lemma_yields_rule(g.rules, g.nt, w.pp, rule, ts, vs);
    let v = tree_builder::assembled(g.rules[rule], w.pp, vs);
    assert(c.nodes + tree_builder::trailing_absents(g.rules[rule]) =~= b.nodes + v->Inline_0);
    v
}

/// The value of the last symbol of a family makes the node built.
proof fn lemma_extended(
    g: earley_chart::Context,
    gr: earley_shape::Ground,
    w: earley_rank::Walk,
    id: int,
    p: Packed,
    vs: Seq<tree_builder::SlotModel>,
    v: tree_builder::SlotModel,
    first: earley_tree::Buffer,
    b: earley_tree::Buffer,
)
    requires
        is_node(gr, w, id),
        w.rules == g.rules,
        p.rule < g.rules.len(),
        p.right_pos < g.rules[p.rule as int].expansion.len(),
        w.forest.nodes[id].key == earley_chart::key_at(g, p.rule, p.right_pos + 1),
        w.forest.nodes[id].start <= earley_shape::mid_of(w.forest, w.forest.nodes[id], p)
            <= w.forest.nodes[id].end,
        is_part(
            g,
            gr,
            w,
            p.rule as int,
            p.right_pos as int,
            w.forest.nodes[id].start,
            earley_shape::mid_of(w.forest, w.forest.nodes[id], p),
            vs,
        ),
        is_filled(g, w, p.rule as int, vs, first, b),
        gr.loose ==> gaps_join(gr),
        is_valued(
            g,
            gr,
            w,
            g.rules[p.rule as int].expansion[p.right_pos as int],
            earley_shape::mid_of(w.forest, w.forest.nodes[id], p),
            w.forest.nodes[id].end,
            v,
        ),
    ensures
        is_built(
            g,
            gr,
            w,
            id,
            p.rule as int,
            first,
            earley_tree::with_value(
                w,
                earley_tree::with_gap(w, b, p.rule as int, p.right_pos as int),
                p.rule as int,
                p.right_pos as int,
                v,
            ),
        ),
{
    let n = w.forest.nodes[id];
    let mid = earley_shape::mid_of(w.forest, n, p);
    let rule = p.rule as int;
    let pos = p.right_pos as int;
    lemma_part_push(g, gr, w, rule, pos, n.start, mid, n.end, vs, v);
    let gap = earley_tree::with_gap(w, b, rule, pos);
    let c = earley_tree::with_value(w, gap, rule, pos, v);
    assert(c.nodes =~= first.nodes + tree_builder::kept_children(g.rules[rule], vs.push(v)));
    assert(vs.push(v).drop_last() =~= vs);
    assert(is_filled(g, w, rule, vs.push(v), first, c));
    assert(is_part(g, gr, w, rule, pos + 1, n.start, n.end, vs.push(v)));
}

/// The value of the root of a forest in shape is that of a derivation of tokens
/// that it spans.
pub proof fn lemma_root_valued(
    g: earley_chart::Context,
    gr: earley_shape::Ground,
    w: earley_rank::Walk,
    root: int,
    s: SymbolId,
)
    requires
        is_walk(g, gr, w),
        is_node(gr, w, root),
        w.forest.nodes[root].key == NodeKey::Sym(s),
        earley_tree::transformed(w, root) is Some,
    ensures
        is_valued(
            g,
            gr,
            w,
            s,
            w.forest.nodes[root].start,
            w.forest.nodes[root].end,
            earley_tree::transformed(w, root)->0,
        ),
{
    let n = w.forest.nodes.len();
    let m = earley_tree::nothing_found(n);
    lemma_node_value(g, gr, w, root, m, earley_rank::idle(n));
}

/// The value of the root of a forest in shape is that of a derivation of the
/// tokens.
pub proof fn lemma_root_value(
    g: earley_chart::Context,
    gr: earley_shape::Ground,
    w: earley_rank::Walk,
    root: int,
    s: SymbolId,
)
    requires
        is_walk(g, gr, w),
        !gr.loose,
        is_node(gr, w, root),
        w.forest.nodes[root].key == NodeKey::Sym(s),
        w.forest.nodes[root].start == 0,
        w.forest.nodes[root].end == w.forest.tokens.len(),
        earley_tree::transformed(w, root) is Some,
    ensures
        derivation::yields(
            g.rules,
            g.nt,
            w.pp,
            s,
            w.forest.tokens,
            earley_tree::transformed(w, root)->0,
        ),
{
    lemma_root_valued(g, gr, w, root, s);
    assert(tokens_of(w, 0, w.forest.tokens.len() as usize) =~= w.forest.tokens);
}

} // verus!
