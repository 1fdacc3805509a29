//! All derivations side by side are derivations: whichever alternative is picked at
//! every ambiguity node, what is left is the value of a derivation.

use vstd::prelude::*;
use crate::bits;
use crate::derivation;
use crate::earley;
use crate::earley_chart;
use crate::earley_forest::{ForestRef, NodeKey, Packed};
use crate::earley_rank;
use crate::earley_shape;
use crate::earley_tree;
use crate::earley_value;
use crate::empty_values;
use crate::symbols;
use crate::symbols::SymbolId;
use crate::tree;
use crate::tree_builder;
use crate::value_key;

verus! {

// ---------------------------------------------------------------------------
// Picking alternatives

/// Whether `u` is what is left of `n`, whatever the spans, where one alternative is
/// picked at every ambiguity node. Where one derivation is chosen (`one`), nothing
/// is picked.
pub open spec fn picks(one: bool, n: tree::Node, u: tree::Node) -> bool
    decreases n,
{
    match n {
        tree::Node::Token(t) => u == tree::Node::Token(t),
        tree::Node::Absent => u is Absent,
        tree::Node::Tree { data, children, meta } => if !one && data == "_ambig"@
            && children.len() > 0 {
            exists|i: int| 0 <= i < children.len() && picks(one, #[trigger] children[i], u)
        } else {
            &&& u is Tree
            &&& u->data == data
            &&& u->children.len() == children.len()
            &&& forall|i: int|
                0 <= i < children.len() ==> picks(one, #[trigger] children[i], u->children[i])
        },
    }
}

/// Whether `us` are what is left of nodes, one by one.
pub open spec fn picks_all(one: bool, ns: Seq<tree::Node>, us: Seq<tree::Node>) -> bool {
    ns.len() == us.len() && forall|i: int| 0 <= i < ns.len() ==> picks(one, #[trigger] ns[i], us[i])
}

/// Whether `u` is what is left of a value.
pub open spec fn picked(one: bool, v: tree_builder::SlotModel, u: tree_builder::SlotModel) -> bool {
    match v {
        tree_builder::SlotModel::Value(n) => exists|x: tree::Node| #[trigger]
            picks(one, n, x) && u == earley_tree::as_value(x),
        tree_builder::SlotModel::Inline(ns) => u is Inline && picks_all(one, ns, u->Inline_0),
    }
}

/// Whether `us` are what is left of values, one by one.
pub open spec fn picked_all(
    one: bool,
    vs: Seq<tree_builder::SlotModel>,
    us: Seq<tree_builder::SlotModel>,
) -> bool {
    vs.len() == us.len() && forall|i: int| 0 <= i < vs.len() ==> picked(one, #[trigger] vs[i], us[i])
}

/// Whether values have the same structure, one by one.
pub open spec fn alike(
    us: Seq<tree_builder::SlotModel>,
    xs: Seq<tree_builder::SlotModel>,
) -> bool {
    us.len() == xs.len() && forall|i: int|
        0 <= i < us.len() ==> value_key::same_structure(#[trigger] us[i], xs[i])
}

/// Whether nodes have the same structure, one by one.
pub open spec fn nodes_alike(us: Seq<tree::Node>, xs: Seq<tree::Node>) -> bool {
    us.len() == xs.len() && forall|i: int|
        0 <= i < us.len() ==> value_key::same_node(#[trigger] us[i], xs[i])
}

pub proof fn lemma_node_alike(n: tree::Node)
    ensures
        value_key::same_node(n, n),
    decreases n,
{
    if let tree::Node::Tree { data, children, meta } = n {
        assert forall|i: int| 0 <= i < children.len() implies value_key::same_node(
            #[trigger] children[i],
            children[i],
        ) by {
            lemma_node_alike(children[i]);
        }
    }
}

/// What is left of a node where nothing is picked is the node.
pub proof fn lemma_picks_self(n: tree::Node)
    ensures
        picks(true, n, n),
    decreases n,
{
    if let tree::Node::Tree { data, children, meta } = n {
        assert forall|i: int| 0 <= i < children.len() implies picks(
            true,
            #[trigger] children[i],
            children[i],
        ) by {
            lemma_picks_self(children[i]);
        }
    }
}

/// Whether a value that is no token stays among the children of a rule.
pub open spec fn slot_fits(
    one: bool,
    rule: symbols::RuleModel,
    pos: int,
    v: tree_builder::SlotModel,
) -> bool {
    v matches tree_builder::SlotModel::Value(n) ==> one || n is Token || symbols::keeps_token(
        rule,
        pos,
    )
}

/// Whether all values that are no tokens stay among the children of a rule.
pub open spec fn slots_fit(
    one: bool,
    rule: symbols::RuleModel,
    vs: Seq<tree_builder::SlotModel>,
) -> bool {
    forall|i: int| 0 <= i < vs.len() ==> slot_fits(one, rule, i, #[trigger] vs[i])
}

/// What is left of the children of a rule is what is left of its values.
proof fn lemma_kept_picked(
    one: bool,
    rule: symbols::RuleModel,
    vs: Seq<tree_builder::SlotModel>,
    cs: Seq<tree::Node>,
) -> (us: Seq<tree_builder::SlotModel>)
    requires
        slots_fit(one, rule, vs),
        picks_all(one, tree_builder::kept_children(rule, vs), cs),
    ensures
        picked_all(one, vs, us),
        tree_builder::kept_children(rule, us) == cs,
    decreases vs.len(),
{
    if vs.len() == 0 {
        assert(cs =~= Seq::empty());
        Seq::empty()
    } else {
        let i = vs.len() - 1;
        let front = tree_builder::kept_children(rule, vs.drop_last());
        let gap = tree_builder::absents(symbols::nones_at(rule, i));
        let v = vs.last();
        assert(slot_fits(one, rule, i, vs[i]));
        let last = tree_builder::slot_children(rule, i, v);
        let all = tree_builder::kept_children(rule, vs);
        let p = front.len() as int;
        let q = p + gap.len();
        assert(all =~= front + gap + last);
        let c0 = cs.take(p);
        let c1 = cs.subrange(p, q);
        let c2 = cs.skip(q);
        assert(picks_all(one, front, c0)) by {
            assert forall|k: int| 0 <= k < front.len() implies picks(one, #[trigger] front[k], c0[k]) by {
                assert(all[k] == front[k]);
            }
        }
        assert(c1 =~= gap) by {
            assert forall|k: int| 0 <= k < gap.len() implies c1[k] == gap[k] by {
                assert(all[p + k] == gap[k]);
                assert(picks(one, all[p + k], cs[p + k]));
            }
        }
        assert(picks_all(one, last, c2)) by {
            assert forall|k: int| 0 <= k < last.len() implies picks(one, #[trigger] last[k], c2[k]) by {
                assert(all[q + k] == last[k]);
            }
        }
        assert forall|k: int| 0 <= k < vs.drop_last().len() implies slot_fits(
            one,
            rule,
            k,
            #[trigger] vs.drop_last()[k],
        ) by {
            assert(slot_fits(one, rule, k, vs[k]));
        }
        let us = lemma_kept_picked(one, rule, vs.drop_last(), c0);
        let u = match v {
            tree_builder::SlotModel::Value(n) => if last.len() == 0 {
                v
            } else {
                earley_tree::as_value(c2[0])
            },
            tree_builder::SlotModel::Inline(_) => tree_builder::SlotModel::Inline(c2),
        };
        if let tree_builder::SlotModel::Value(n) = v {
            if last.len() == 0 {
                assert(picks(one, n, n));
            } else {
                assert(last[0] == n);
                assert(picks(one, last[0], c2[0]));
            }
        }
        assert(picked(one, v, u));
        assert(tree_builder::slot_children(rule, i, u) =~= c2);
        let all_us = us.push(u);
        assert(all_us.drop_last() =~= us);
        assert(cs =~= c0 + c1 + c2);
        assert forall|k: int| 0 <= k < vs.len() implies picked(one, #[trigger] vs[k], all_us[k]) by {
            if k < i {
                assert(vs.drop_last()[k] == vs[k]);
            }
        }
        all_us
    }
}

/// The children of a rule are alike where its values are.
pub proof fn lemma_kept_alike(
    rule: symbols::RuleModel,
    us: Seq<tree_builder::SlotModel>,
    xs: Seq<tree_builder::SlotModel>,
)
    requires
        alike(us, xs),
    ensures
        nodes_alike(
            tree_builder::kept_children(rule, us),
            tree_builder::kept_children(rule, xs),
        ),
    decreases us.len(),
{
    if us.len() > 0 {
        let i = us.len() - 1;
        assert forall|k: int| 0 <= k < us.drop_last().len() implies value_key::same_structure(
            #[trigger] us.drop_last()[k],
            xs.drop_last()[k],
        ) by {
            assert(value_key::same_structure(us[k], xs[k]));
        }
        lemma_kept_alike(rule, us.drop_last(), xs.drop_last());
        assert(value_key::same_structure(us[i], xs[i]));
        let gap = tree_builder::absents(symbols::nones_at(rule, i));
        let a = tree_builder::slot_children(rule, i, us.last());
        let b = tree_builder::slot_children(rule, i, xs.last());
        assert(nodes_alike(a, b));
        lemma_concat_alike(
            tree_builder::kept_children(rule, us.drop_last()),
            tree_builder::kept_children(rule, xs.drop_last()),
            gap,
        );
        let f = tree_builder::kept_children(rule, us.drop_last()) + gap;
        let h = tree_builder::kept_children(rule, xs.drop_last()) + gap;
        assert forall|k: int| 0 <= k < (f + a).len() implies value_key::same_node(
            #[trigger] (f + a)[k],
            (h + b)[k],
        ) by {
            if k < f.len() {
                assert(value_key::same_node(f[k], h[k]));
            } else {
                assert(value_key::same_node(a[k - f.len()], b[k - f.len()]));
            }
        }
    }
}

pub proof fn lemma_concat_alike(a: Seq<tree::Node>, b: Seq<tree::Node>, c: Seq<tree::Node>)
    requires
        nodes_alike(a, b),
    ensures
        nodes_alike(a + c, b + c),
{
    assert forall|k: int| 0 <= k < (a + c).len() implies value_key::same_node(
        #[trigger] (a + c)[k],
        (b + c)[k],
    ) by {
        if k < a.len() {
            assert(value_key::same_node(a[k], b[k]));
        } else {
            lemma_node_alike(c[k - a.len()]);
        }
    }
}

/// Whether a value is one that a rule can make of the children `cs`, whatever its
/// span.
pub open spec fn is_made_of(
    rule: symbols::RuleModel,
    u: tree_builder::SlotModel,
    cs: Seq<tree::Node>,
) -> bool {
    let all = cs + tree_builder::trailing_absents(rule);
    if rule.transparent {
        u == tree_builder::SlotModel::Inline(all)
    } else if rule.expand1 && rule.alias is None && all.len() == 1 {
        u == earley_tree::as_value(all[0])
    } else {
        match u {
            tree_builder::SlotModel::Value(tree::Node::Tree { data, children, meta }) => data
                == rule.tree_name && children == all,
            _ => false,
        }
    }
}

/// What is left of the value of a rule is a value of what is left of its values.
proof fn lemma_shaped_picked(
    one: bool,
    rule: symbols::RuleModel,
    pp: bool,
    vs: Seq<tree_builder::SlotModel>,
    u: tree_builder::SlotModel,
) -> (us: Seq<tree_builder::SlotModel>)
    requires
        slots_fit(one, rule, vs),
        one || rule.tree_name != "_ambig"@,
        picked(one, tree_builder::assembled(rule, pp, vs), u),
    ensures
        picked_all(one, vs, us),
        is_made_of(rule, u, tree_builder::kept_children(rule, us)),
{
    let cs = tree_builder::kept_children(rule, vs);
    let tail = tree_builder::trailing_absents(rule);
    let all = cs + tail;
    let v = tree_builder::assembled(rule, pp, vs);
    let left: Seq<tree::Node> = match v {
        tree_builder::SlotModel::Inline(_) => u->Inline_0,
        tree_builder::SlotModel::Value(n) => {
            let x = choose|x: tree::Node| #[trigger] picks(one, n, x) && u == earley_tree::as_value(x);
            if rule.expand1 && rule.alias is None && all.len() == 1 {
                seq![x]
            } else {
                x->children
            }
        },
    };
    assert(picks_all(one, all, left)) by {
        match v {
            tree_builder::SlotModel::Inline(_) => {},
            tree_builder::SlotModel::Value(n) => {
                if rule.expand1 && rule.alias is None && all.len() == 1 {
                    assert(all[0] == n);
                } else {
                    assert(n is Tree && n->children == all);
                }
            },
        }
    }
    let c = left.take(cs.len() as int);
    assert(picks_all(one, cs, c)) by {
        assert forall|k: int| 0 <= k < cs.len() implies picks(one, #[trigger] cs[k], c[k]) by {
            assert(all[k] == cs[k]);
        }
    }
    let us = lemma_kept_picked(one, rule, vs, c);
    assert(left =~= c + tail) by {
        assert forall|k: int| 0 <= k < tail.len() implies left[cs.len() + k] == tail[k] by {
            assert(all[cs.len() + k] == tail[k]);
            assert(picks(one, all[cs.len() + k], left[cs.len() + k]));
        }
    }
    if !rule.transparent && rule.expand1 && rule.alias is None && all.len() == 1 {
        assert((c + tail).len() == 1);
        if all[0] is Absent {
            assert(picks(one, all[0], left[0]));
            assert(u->Inline_0 =~= seq![tree::Node::Absent]);
            assert(left[0] == tree::Node::Absent);
            assert(u == earley_tree::as_value(left[0]));
        }
    }
    us
}

/// The values that a rule makes of values that are alike are alike.
pub proof fn lemma_made_alike(
    rule: symbols::RuleModel,
    pp: bool,
    u: tree_builder::SlotModel,
    us: Seq<tree_builder::SlotModel>,
    xs: Seq<tree_builder::SlotModel>,
)
    requires
        is_made_of(rule, u, tree_builder::kept_children(rule, us)),
        alike(us, xs),
    ensures
        value_key::same_structure(u, tree_builder::assembled(rule, pp, xs)),
{
    lemma_kept_alike(rule, us, xs);
    let tail = tree_builder::trailing_absents(rule);
    let a = tree_builder::kept_children(rule, us);
    let b = tree_builder::kept_children(rule, xs);
    lemma_concat_alike(a, b, tail);
    if !rule.transparent && rule.expand1 && rule.alias is None && (a + tail).len() == 1 {
        assert(value_key::same_node((a + tail)[0], (b + tail)[0]));
    }
}

// ---------------------------------------------------------------------------
// What is shown

/// Whether the value that is left is that of a derivation, by `s`, of tokens between
/// two positions, up to structure.
pub open spec fn is_like(
    g: earley_chart::Context,
    gr: earley_shape::Ground,
    w: earley_rank::Walk,
    s: SymbolId,
    start: usize,
    end: usize,
    u: tree_builder::SlotModel,
) -> bool {
    exists|x: tree_builder::SlotModel| #[trigger]
        earley_value::is_valued(g, gr, w, s, start, end, x) && value_key::same_structure(u, x)
}

/// Whether all that a value shows are derivations, by `s`, of tokens between two
/// positions.
pub open spec fn is_shown(
    g: earley_chart::Context,
    gr: earley_shape::Ground,
    w: earley_rank::Walk,
    s: SymbolId,
    start: usize,
    end: usize,
    v: tree_builder::SlotModel,
) -> bool {
    forall|u: tree_builder::SlotModel| #[trigger]
        picked(w.resolve, v, u) ==> is_like(g, gr, w, s, start, end, u)
}

/// Whether values that are left are those of derivations by the first `dot` symbols
/// of a rule, up to structure.
pub open spec fn are_like(
    g: earley_chart::Context,
    gr: earley_shape::Ground,
    w: earley_rank::Walk,
    rule: int,
    dot: int,
    start: usize,
    end: usize,
    us: Seq<tree_builder::SlotModel>,
) -> bool {
    exists|xs: Seq<tree_builder::SlotModel>| #[trigger]
        earley_value::is_part(g, gr, w, rule, dot, start, end, xs) && alike(us, xs)
}

/// Whether all that values show are derivations by the first `dot` symbols of a
/// rule.
pub open spec fn are_shown(
    g: earley_chart::Context,
    gr: earley_shape::Ground,
    w: earley_rank::Walk,
    rule: int,
    dot: int,
    start: usize,
    end: usize,
    vs: Seq<tree_builder::SlotModel>,
) -> bool {
    &&& 0 <= rule < g.rules.len()
    &&& 0 <= dot <= g.rules[rule].expansion.len()
    &&& slots_fit(w.resolve, g.rules[rule], vs)
    &&& vs.len() == dot
    &&& forall|us: Seq<tree_builder::SlotModel>| #[trigger]
        picked_all(w.resolve, vs, us) ==> are_like(g, gr, w, rule, dot, start, end, us)
}

/// Whether symbols that are no terminals stay among the children of every rule.
pub open spec fn keeps_symbols(rules: Seq<symbols::RuleModel>, nt: nat) -> bool {
    forall|r: int, pos: int|
        0 <= r < rules.len() && 0 <= pos < rules[r].expansion.len() && (
        #[trigger] rules[r].expansion[pos]).ix() >= nt ==> symbols::keeps_token(rules[r], pos)
}

/// Whether no rule makes a node that could be taken for one that shows alternatives.
pub open spec fn names_differ(rules: Seq<symbols::RuleModel>) -> bool {
    forall|r: int| 0 <= r < rules.len() ==> (#[trigger] rules[r]).tree_name != "_ambig"@
}

/// Whether a walk is one over a forest in shape.
pub open spec fn shows(
    g: earley_chart::Context,
    gr: earley_shape::Ground,
    w: earley_rank::Walk,
) -> bool {
    &&& earley_chart::context_ok(g)
    &&& w.rules == g.rules
    &&& symbols::is_uniform(g.rules)
    &&& w.resolve || keeps_symbols(g.rules, g.nt) && names_differ(g.rules)
    &&& earley_shape::families_fit(g, gr, w.forest)
    &&& gr.loose ==> earley_value::gaps_join(gr)
    &&& earley_shape::within_limits(w.forest)
}

/// Whether all that a value of a node shows are derivations of what the node spans.
pub open spec fn is_shown_at(
    g: earley_chart::Context,
    gr: earley_shape::Ground,
    w: earley_rank::Walk,
    id: int,
    v: tree_builder::SlotModel,
) -> bool {
    let n = w.forest.nodes[id];
    &&& n.families.len() > 0
    &&& n.key matches NodeKey::Sym(s) ==> is_shown(g, gr, w, s, n.start, n.end, v)
}

/// Whether a value is no splice but that of an absent optional.
pub open spec fn is_plain(v: tree_builder::SlotModel) -> bool {
    v is Value || v == tree_builder::SlotModel::Inline(seq![tree::Node::Absent])
}

/// Whether all that the derivations of a node show are derivations of what it
/// spans.
pub open spec fn all_shown_at(
    g: earley_chart::Context,
    gr: earley_shape::Ground,
    w: earley_rank::Walk,
    id: int,
    ds: Seq<tree_builder::SlotModel>,
) -> bool {
    forall|i: int|
        0 <= i < ds.len() ==> is_shown_at(g, gr, w, id, #[trigger] ds[i]) && (
        earley_tree::is_transparent(w, id) || is_plain(ds[i]))
}

/// Whether all that was found so far are derivations.
pub open spec fn is_found(
    g: earley_chart::Context,
    gr: earley_shape::Ground,
    w: earley_rank::Walk,
    m: earley_rank::Found,
) -> bool {
    &&& m.values.len() == w.forest.nodes.len()
    &&& m.derivs.len() == w.forest.nodes.len()
    &&& forall|id: int|
        0 <= id < m.values.len() ==> (#[trigger] m.values[id] matches Some(v) ==> is_shown_at(
            g,
            gr,
            w,
            id,
            v,
        ) && (w.resolve || is_plain(v)))
    &&& forall|id: int|
        0 <= id < m.derivs.len() ==> (#[trigger] m.derivs[id] matches Some(ds) ==> all_shown_at(
            g,
            gr,
            w,
            id,
            ds,
        ))
}

/// Whether `c` is `b` with children that show derivations of what a node spans, by
/// the part of `rule` that the node stands for.
pub open spec fn is_appended(
    g: earley_chart::Context,
    gr: earley_shape::Ground,
    w: earley_rank::Walk,
    id: int,
    rule: int,
    b: earley_tree::Buffer,
    c: earley_tree::Buffer,
) -> bool {
    let n = w.forest.nodes[id];
    exists|dot: int, vs: Seq<tree_builder::SlotModel>| #[trigger]
        are_shown(g, gr, w, rule, dot, n.start, n.end, vs) && n.key == earley_chart::key_at(
            g,
            rule as usize,
            dot,
        ) && c.nodes == b.nodes + tree_builder::kept_children(g.rules[rule], vs)
}

/// Nothing shows the derivation of nothing.
proof fn lemma_none_shown(
    g: earley_chart::Context,
    gr: earley_shape::Ground,
    w: earley_rank::Walk,
    rule: int,
    start: usize,
    end: usize,
)
    requires
        0 <= rule < g.rules.len(),
        earley_value::are_between(gr, w, start, end, Seq::empty()),
    ensures
        are_shown(g, gr, w, rule, 0, start, end, Seq::empty()),
{
    let none = Seq::<tree_builder::SlotModel>::empty();
    derivation::lemma_yields_nothing(g.rules, g.nt, w.pp);
    assert(g.rules[rule].expansion.take(0) =~= Seq::empty());
    assert(earley_value::is_part(g, gr, w, rule, 0, start, end, none));
    assert forall|us: Seq<tree_builder::SlotModel>| #[trigger] picked_all(w.resolve, none, us) implies are_like(
        g,
        gr,
        w,
        rule,
        0,
        start,
        end,
        us,
    ) by {
        assert(alike(us, none));
    }
}

/// Nothing lies where a node begins, and in all of it where its rule is empty.
proof fn lemma_nothing_between(
    g: earley_chart::Context,
    gr: earley_shape::Ground,
    w: earley_rank::Walk,
    id: int,
    p: Packed,
)
    requires
        shows(g, gr, w),
        earley_value::is_node(gr, w, id),
        earley_shape::is_family(g, gr, w.forest, w.forest.nodes[id], p),
    ensures
        earley_value::are_between(
            gr,
            w,
            w.forest.nodes[id].start,
            w.forest.nodes[id].start,
            Seq::empty(),
        ),
        p.right is Nothing ==> earley_value::are_between(
            gr,
            w,
            w.forest.nodes[id].start,
            w.forest.nodes[id].end,
            Seq::empty(),
        ),
{
    let n = w.forest.nodes[id];
    if !gr.loose {
        assert(earley_value::tokens_of(w, n.start, n.start) =~= Seq::empty());
    }
}

/// What values show with one more symbol.
proof fn lemma_shown_push(
    g: earley_chart::Context,
    gr: earley_shape::Ground,
    w: earley_rank::Walk,
    rule: int,
    pos: int,
    start: usize,
    mid: usize,
    end: usize,
    vs: Seq<tree_builder::SlotModel>,
    v: tree_builder::SlotModel,
)
    requires
        are_shown(g, gr, w, rule, pos, start, mid, vs),
        pos < g.rules[rule].expansion.len(),
        gr.loose ==> earley_value::gaps_join(gr),
        is_shown(g, gr, w, g.rules[rule].expansion[pos], mid, end, v),
        slot_fits(w.resolve, g.rules[rule], pos, v),
    ensures
        are_shown(g, gr, w, rule, pos + 1, start, end, vs.push(v)),
{
    let all = vs.push(v);
    assert forall|i: int| 0 <= i < all.len() implies slot_fits(
        w.resolve,
        g.rules[rule],
        i,
        #[trigger] all[i],
    ) by {
        if i < vs.len() {
            assert(slot_fits(w.resolve, g.rules[rule], i, vs[i]));
        }
    }
    assert forall|us: Seq<tree_builder::SlotModel>| #[trigger] picked_all(w.resolve, all, us) implies are_like(
        g,
        gr,
        w,
        rule,
        pos + 1,
        start,
        end,
        us,
    ) by {
        let front = us.drop_last();
        assert(picked_all(w.resolve, vs, front)) by {
            assert forall|i: int| 0 <= i < vs.len() implies picked(w.resolve, #[trigger] vs[i], front[i]) by {
                assert(all[i] == vs[i]);
            }
        }
        assert(picked(w.resolve, all[pos], us[pos]));
        let xs = choose|xs: Seq<tree_builder::SlotModel>| #[trigger]
            earley_value::is_part(g, gr, w, rule, pos, start, mid, xs) && alike(front, xs);
        assert(is_like(g, gr, w, g.rules[rule].expansion[pos], mid, end, us[pos]));
        let x = choose|x: tree_builder::SlotModel| #[trigger]
            earley_value::is_valued(g, gr, w, g.rules[rule].expansion[pos], mid, end, x)
                && value_key::same_structure(us[pos], x);
        earley_value::lemma_part_push(g, gr, w, rule, pos, start, mid, end, xs, x);
        let ys = xs.push(x);
        assert(alike(us, ys)) by {
            assert forall|i: int| 0 <= i < us.len() implies value_key::same_structure(
                #[trigger] us[i],
                ys[i],
            ) by {
                if i < pos {
                    assert(value_key::same_structure(front[i], xs[i]));
                }
            }
        }
    }
}

/// What is shown up to where the last symbol of a family ends is shown up to the end
/// of the node.
proof fn lemma_shown_on(
    g: earley_chart::Context,
    gr: earley_shape::Ground,
    w: earley_rank::Walk,
    id: int,
    p: Packed,
    c: usize,
    v: tree_builder::SlotModel,
)
    requires
        shows(g, gr, w),
        earley_value::is_node(gr, w, id),
        earley_shape::is_family(g, gr, w.forest, w.forest.nodes[id], p),
        p.right == ForestRef::Node(c),
        is_shown_at(g, gr, w, c as int, v),
    ensures
        is_shown(
            g,
            gr,
            w,
            g.rules[p.rule as int].expansion[p.right_pos as int],
            earley_shape::mid_of(w.forest, w.forest.nodes[id], p),
            w.forest.nodes[id].end,
            v,
        ),
        slot_fits(w.resolve, g.rules[p.rule as int], p.right_pos as int, v),
{
    let n = w.forest.nodes[id];
    let mid = earley_shape::mid_of(w.forest, n, p);
    let stop = earley_shape::stop_of(w.forest, n, p);
    let child = w.forest.nodes[c as int];
    let first = child.families[0];
    assert(earley_shape::is_family(g, gr, w.forest, child, first));
    assert(child.key == NodeKey::Sym(g.rules[first.rule as int].origin));
    assert(g.rules[first.rule as int].origin.ix() >= g.nt);
    assert(g.rules[p.rule as int].expansion[p.right_pos as int].ix() >= g.nt);
    let s = g.rules[p.rule as int].expansion[p.right_pos as int];
    assert forall|u: tree_builder::SlotModel| #[trigger] picked(w.resolve, v, u) implies is_like(
        g,
        gr,
        w,
        s,
        mid,
        n.end,
        u,
    ) by {
        assert(is_like(g, gr, w, s, mid, stop, u));
        let x = choose|x: tree_builder::SlotModel| #[trigger]
            earley_value::is_valued(g, gr, w, s, mid, stop, x) && value_key::same_structure(u, x);
        let ts = choose|ts: Seq<tree::TokenModel>| #[trigger]
            earley_value::are_between(gr, w, mid, stop, ts) && derivation::yields(
                g.rules,
                g.nt,
                w.pp,
                s,
                ts,
                x,
            );
        if gr.loose {
            earley_value::lemma_strung_void(gr, mid as int, stop as int, n.end as int, ts);
        }
        assert(earley_value::are_between(gr, w, mid, n.end, ts));
        assert(earley_value::is_valued(g, gr, w, s, mid, n.end, x));
    }
}

/// A token shows itself.
proof fn lemma_token_shown(
    g: earley_chart::Context,
    gr: earley_shape::Ground,
    w: earley_rank::Walk,
    id: int,
    p: Packed,
    t: usize,
)
    requires
        shows(g, gr, w),
        earley_value::is_node(gr, w, id),
        earley_shape::is_family(g, gr, w.forest, w.forest.nodes[id], p),
        p.right == ForestRef::Tok(t),
    ensures
        is_shown(
            g,
            gr,
            w,
            g.rules[p.rule as int].expansion[p.right_pos as int],
            earley_shape::mid_of(w.forest, w.forest.nodes[id], p),
            w.forest.nodes[id].end,
            earley_tree::token_value(w, t as int),
        ),
{
    let n = w.forest.nodes[id];
    let mid = earley_shape::mid_of(w.forest, n, p);
    let tok = w.forest.tokens[t as int];
    let s = g.rules[p.rule as int].expansion[p.right_pos as int];
    let v = earley_tree::token_value(w, t as int);
    derivation::lemma_yields_token(g.rules, g.nt, w.pp, tok);
    let one = seq![tok];
    if gr.loose {
        let stop = choose|stop: int| #[trigger]
            earley_shape::token_to(g, gr, n, mid as int, tok, stop);
        assert(one.drop_last() =~= Seq::empty());
        assert(earley_value::is_strung(gr, mid as int, mid as int, one.drop_last()));
        assert(earley_value::ends_with(gr, mid as int, stop, n.end as int, one.last()));
    } else {
        assert(earley_value::tokens_of(w, mid, n.end) =~= one);
    }
    assert(earley_value::is_valued(g, gr, w, s, mid, n.end, v)) by {
        assert(earley_value::are_between(gr, w, mid, n.end, one));
    }
    lemma_node_alike(tree::Node::Token(tok));
    assert forall|u: tree_builder::SlotModel| #[trigger] picked(w.resolve, v, u) implies is_like(
        g,
        gr,
        w,
        s,
        mid,
        n.end,
        u,
    ) by {
        assert(u == v);
        assert(value_key::same_structure(u, v));
    }
}

/// What a rule makes of values shows derivations.
proof fn lemma_assembled_shown(
    g: earley_chart::Context,
    gr: earley_shape::Ground,
    w: earley_rank::Walk,
    rule: int,
    start: usize,
    end: usize,
    vs: Seq<tree_builder::SlotModel>,
)
    requires
        shows(g, gr, w),
        0 <= rule < g.rules.len(),
        are_shown(
            g,
            gr,
            w,
            rule,
            g.rules[rule].expansion.len() as int,
            start,
            end,
            vs,
        ),
    ensures
        is_shown(
            g,
            gr,
            w,
            g.rules[rule].origin,
            start,
            end,
            tree_builder::assembled(g.rules[rule], w.pp, vs),
        ),
{
    let r = g.rules[rule];
    let e = r.expansion;
    let v = tree_builder::assembled(r, w.pp, vs);
    assert(e.take(e.len() as int) =~= e);
    assert(r.origin.ix() >= g.nt);
    assert forall|u: tree_builder::SlotModel| #[trigger] picked(w.resolve, v, u) implies is_like(
        g,
        gr,
        w,
        r.origin,
        start,
        end,
        u,
    ) by {
        let us = lemma_shaped_picked(w.resolve, r, w.pp, vs, u);
        assert(are_like(g, gr, w, rule, e.len() as int, start, end, us));
        let xs = choose|xs: Seq<tree_builder::SlotModel>| #[trigger]
            earley_value::is_part(g, gr, w, rule, e.len() as int, start, end, xs) && alike(us, xs);
        let ts = choose|ts: Seq<tree::TokenModel>| #[trigger]
            earley_value::are_between(gr, w, start, end, ts) && derivation::yields_all(
                g.rules,
                g.nt,
                w.pp,
                e,
                ts,
                xs,
            );
        derivation::lemma_yields_rule(g.rules, g.nt, w.pp, rule, ts, xs);
        let x = tree_builder::assembled(r, w.pp, xs);
        assert(earley_value::is_valued(g, gr, w, r.origin, start, end, x));
        lemma_made_alike(r, w.pp, u, us, xs);
    }
}

// ---------------------------------------------------------------------------
// Lists of derivations

/// An alternative of a value that shows several shows derivations too.
proof fn lemma_alternative_shown(
    g: earley_chart::Context,
    gr: earley_shape::Ground,
    w: earley_rank::Walk,
    id: int,
    v: tree_builder::SlotModel,
    i: int,
)
    requires
        !w.resolve,
        is_shown_at(g, gr, w, id, v),
        v matches tree_builder::SlotModel::Value(n) && n is Tree && n->data == "_ambig"@ && 0 <= i
            < n->children.len(),
    ensures
        is_shown_at(g, gr, w, id, earley_tree::as_value(v->Value_0->children[i])),
{
    let n = v->Value_0;
    let c = n->children[i];
    let a = earley_tree::as_value(c);
    assert forall|u: tree_builder::SlotModel| #[trigger] picked(w.resolve, a, u) implies picked(w.resolve, v, u) by {
        if c is Absent {
            assert(picks(w.resolve, seq![c][0], u->Inline_0[0]));
            assert(u->Inline_0 =~= seq![tree::Node::Absent]);
            assert(picks(w.resolve, c, tree::Node::Absent));
            assert(picks(w.resolve, n->children[i], tree::Node::Absent));
            assert(picks(w.resolve, n, tree::Node::Absent));
        } else {
            let x = choose|x: tree::Node| #[trigger] picks(w.resolve, c, x) && u == earley_tree::as_value(x);
            assert(picks(w.resolve, n->children[i], x));
            assert(picks(w.resolve, n, x));
        }
    }
}

proof fn lemma_alternatives_shown(
    g: earley_chart::Context,
    gr: earley_shape::Ground,
    w: earley_rank::Walk,
    id: int,
    ds: Seq<tree_builder::SlotModel>,
    v: tree_builder::SlotModel,
    k: nat,
)
    requires
        !w.resolve,
        all_shown_at(g, gr, w, id, ds),
        is_shown_at(g, gr, w, id, v),
        v matches tree_builder::SlotModel::Value(n) && n is Tree && n->data == "_ambig"@ && k
            <= n->children.len(),
    ensures
        all_shown_at(
            g,
            gr,
            w,
            id,
            earley_tree::alternatives_added(ds, v->Value_0->children, k),
        ),
    decreases k,
{
    if k > 0 {
        lemma_alternatives_shown(g, gr, w, id, ds, v, (k - 1) as nat);
        lemma_alternative_shown(g, gr, w, id, v, k - 1);
    }
}

proof fn lemma_outcomes_shown(
    g: earley_chart::Context,
    gr: earley_shape::Ground,
    w: earley_rank::Walk,
    id: int,
    rule: int,
    ds: Seq<tree_builder::SlotModel>,
    lists: Seq<Seq<tree_builder::SlotModel>>,
    k: nat,
)
    requires
        !w.resolve,
        shows(g, gr, w),
        all_shown_at(g, gr, w, id, ds),
        k <= lists.len(),
        0 <= rule < g.rules.len(),
        w.forest.nodes[id].key == NodeKey::Sym(g.rules[rule].origin),
        g.rules[rule].transparent == earley_tree::is_transparent(w, id),
        w.forest.nodes[id].families.len() > 0,
        forall|i: int|
            0 <= i < lists.len() ==> are_shown(
                g,
                gr,
                w,
                rule,
                g.rules[rule].expansion.len() as int,
                w.forest.nodes[id].start,
                w.forest.nodes[id].end,
                #[trigger] lists[i],
            ),
    ensures
        all_shown_at(g, gr, w, id, earley_tree::outcomes_added(w, rule, ds, lists, k)),
    decreases k,
{
    if k > 0 {
        lemma_outcomes_shown(g, gr, w, id, rule, ds, lists, (k - 1) as nat);
        let before = earley_tree::outcomes_added(w, rule, ds, lists, (k - 1) as nat);
        let n = w.forest.nodes[id];
        let vs = lists[k - 1];
        assert(are_shown(
            g,
            gr,
            w,
            rule,
            g.rules[rule].expansion.len() as int,
            n.start,
            n.end,
            lists[k - 1],
        ));
        lemma_assembled_shown(g, gr, w, rule, n.start, n.end, vs);
        let v = tree_builder::assembled(g.rules[rule], w.pp, vs);
        if v is Inline && !g.rules[rule].transparent {
            assert(v->Inline_0 =~= seq![tree::Node::Absent]);
        }
        if let tree_builder::SlotModel::Value(x) = v {
            if x is Tree && x->data == "_ambig"@ && x->children.len() > 0 {
                lemma_alternatives_shown(g, gr, w, id, before, v, x->children.len());
            }
        }
    }
}

/// Derivations side by side show derivations.
proof fn lemma_side_by_side_shown(
    g: earley_chart::Context,
    gr: earley_shape::Ground,
    w: earley_rank::Walk,
    id: int,
    ds: Seq<tree_builder::SlotModel>,
)
    requires
        !w.resolve,
        all_shown_at(g, gr, w, id, ds),
        !earley_tree::is_transparent(w, id),
    ensures
        earley_tree::side_by_side(ds) matches Some(v) ==> is_shown_at(g, gr, w, id, v) && is_plain(
            v,
        ),
{
    if ds.len() == 1 {
        assert(is_shown_at(g, gr, w, id, ds[0]));
    } else if ds.len() > 1 {
        let v = earley_tree::side_by_side(ds)->0;
        let n = v->Value_0;
        let s = w.forest.nodes[id].key;
        if let NodeKey::Sym(sym) = s {
            let a = w.forest.nodes[id].start;
            let b = w.forest.nodes[id].end;
            assert forall|u: tree_builder::SlotModel| #[trigger] picked(w.resolve, v, u) implies is_like(
                g,
                gr,
                w,
                sym,
                a,
                b,
                u,
            ) by {
                let x = choose|x: tree::Node| #[trigger]
                    picks(w.resolve, n, x) && u == earley_tree::as_value(x);
                let i = choose|i: int|
                    0 <= i < n->children.len() && picks(w.resolve, #[trigger] n->children[i], x);
                let d = ds[i];
                assert(is_shown_at(g, gr, w, id, ds[i]));
                assert(n->children[i] == earley_tree::as_child(d));
                assert(picked(w.resolve, d, u)) by {
                    if d is Inline {
                        assert(d->Inline_0[0] == tree::Node::Absent);
                        assert(u->Inline_0 =~= seq![tree::Node::Absent]);
                        assert(picks_all(w.resolve, d->Inline_0, u->Inline_0));
                    }
                }
            }
        }
    }
}

// ---------------------------------------------------------------------------
// The walk

/// The lists that a family gives show derivations.
pub open spec fn lists_shown(
    g: earley_chart::Context,
    gr: earley_shape::Ground,
    w: earley_rank::Walk,
    rule: int,
    dot: int,
    start: usize,
    end: usize,
    lists: Seq<Seq<tree_builder::SlotModel>>,
) -> bool {
    forall|i: int|
        0 <= i < lists.len() ==> are_shown(
            g,
            gr,
            w,
            rule,
            dot,
            start,
            end,
            #[trigger] lists[i],
        )
}

/// How much of its rule a family covers.
pub open spec fn reach_of(p: Packed) -> int {
    if p.right is Nothing {
        0
    } else {
        p.right_pos + 1
    }
}

proof fn lemma_combined_shown(
    g: earley_chart::Context,
    gr: earley_shape::Ground,
    w: earley_rank::Walk,
    id: int,
    p: Packed,
    lefts: Seq<Seq<tree_builder::SlotModel>>,
    rights: Seq<tree_builder::SlotModel>,
    k: nat,
)
    requires
        shows(g, gr, w),
        earley_shape::is_family(g, gr, w.forest, w.forest.nodes[id], p),
        !(p.right is Nothing),
        lists_shown(
            g,
            gr,
            w,
            p.rule as int,
            p.right_pos as int,
            w.forest.nodes[id].start,
            earley_shape::mid_of(w.forest, w.forest.nodes[id], p),
            lefts,
        ),
        forall|i: int|
            0 <= i < rights.len() ==> is_shown(
                g,
                gr,
                w,
                g.rules[p.rule as int].expansion[p.right_pos as int],
                earley_shape::mid_of(w.forest, w.forest.nodes[id], p),
                w.forest.nodes[id].end,
                #[trigger] rights[i],
            ) && slot_fits(w.resolve, g.rules[p.rule as int], p.right_pos as int, rights[i]),
        k <= lefts.len(),
    ensures
        lists_shown(
            g,
            gr,
            w,
            p.rule as int,
            p.right_pos + 1,
            w.forest.nodes[id].start,
            w.forest.nodes[id].end,
            earley_tree::combined(lefts, rights, k),
        ),
    decreases k,
{
    if k > 0 {
        lemma_combined_shown(g, gr, w, id, p, lefts, rights, (k - 1) as nat);
        let n = w.forest.nodes[id];
        let mid = earley_shape::mid_of(w.forest, n, p);
        let before = earley_tree::combined(lefts, rights, (k - 1) as nat);
        let all = earley_tree::combined(lefts, rights, k);
        assert forall|i: int| 0 <= i < all.len() implies are_shown(
            g,
            gr,
            w,
            p.rule as int,
            p.right_pos + 1,
            n.start,
            n.end,
            #[trigger] all[i],
        ) by {
            if i < before.len() {
                assert(all[i] == before[i]);
            } else {
                let j = i - before.len();
                assert(all[i] == lefts[k - 1].push(rights[j]));
                assert(are_shown(
                    g,
                    gr,
                    w,
                    p.rule as int,
                    p.right_pos as int,
                    n.start,
                    mid,
                    lefts[k - 1],
                ));
                assert(slot_fits(w.resolve, g.rules[p.rule as int], p.right_pos as int, rights[j]));
                lemma_shown_push(
                    g,
                    gr,
                    w,
                    p.rule as int,
                    p.right_pos as int,
                    n.start,
                    mid,
                    n.end,
                    lefts[k - 1],
                    rights[j],
                );
            }
        }
    }
}

/// A symbol's node whose children are appended has the value that the rule shapes.
proof fn lemma_shaped_shown(
    g: earley_chart::Context,
    gr: earley_shape::Ground,
    w: earley_rank::Walk,
    id: int,
    rule: int,
    b: earley_tree::Buffer,
)
    requires
        shows(g, gr, w),
        earley_value::is_node(gr, w, id),
        w.forest.nodes[id].key is Sym,
        w.forest.nodes[id].families.len() > 0,
        is_appended(g, gr, w, id, rule, earley_tree::blank_buffer(), b),
    ensures
        is_shown_at(g, gr, w, id, tree_builder::shaped(w.rules[rule], w.pp, b.nodes, b.span)),
{
    let n = w.forest.nodes[id];
    let (dot, vs) = choose|dot: int, vs: Seq<tree_builder::SlotModel>| #[trigger]
        are_shown(g, gr, w, rule, dot, n.start, n.end, vs) && n.key == earley_chart::key_at(
            g,
            rule as usize,
            dot,
        ) && b.nodes == Seq::<tree::Node>::empty() + tree_builder::kept_children(
            g.rules[rule],
            vs,
        );
    lemma_assembled_shown(g, gr, w, rule, n.start, n.end, vs);
    assert(b.nodes =~= tree_builder::kept_children(g.rules[rule], vs));
    let v = tree_builder::shaped(w.rules[rule], w.pp, b.nodes, b.span);
    let x = tree_builder::assembled(g.rules[rule], w.pp, vs);
    assert forall|u: tree_builder::SlotModel| #[trigger] picked(w.resolve, v, u) implies picked(
        w.resolve,
        x,
        u,
    ) by {
        if let tree_builder::SlotModel::Value(p) = v {
            let y = choose|y: tree::Node| #[trigger]
                picks(w.resolve, p, y) && u == earley_tree::as_value(y);
            let q = x->Value_0;
            assert(picks(w.resolve, q, y));
        }
    }
}

/// The value of a node shows derivations.
pub proof fn lemma_node_shown(
    g: earley_chart::Context,
    gr: earley_shape::Ground,
    w: earley_rank::Walk,
    id: int,
    m: earley_rank::Found,
    visiting: Seq<bool>,
)
    requires
        shows(g, gr, w),
        earley_value::is_node(gr, w, id),
        w.forest.nodes[id].key is Sym,
        is_found(g, gr, w, m),
        w.resolve || !earley_tree::is_transparent(w, id),
    ensures
        ({
            let (v, m1) = earley_tree::node_value(w, id, m, visiting);
            &&& is_found(g, gr, w, m1)
            &&& v matches Some(x) ==> is_shown_at(g, gr, w, id, x) && (w.resolve || is_plain(x))
        }),
    decreases bits::missing(visiting), 3nat, 0nat,
{
    if m.values[id] is Some {
        assert(is_shown_at(g, gr, w, id, m.values[id]->0));
    } else if w.resolve {
        let blank = earley_tree::blank_buffer();
        lemma_rule_shown(g, gr, w, id, blank, m, visiting);
        let (r, b, m1) = earley_tree::rule_appended(w, id, blank, m, visiting);
        if let Some(rule) = r {
            lemma_shaped_shown(g, gr, w, id, rule, b);
            let (v, m2) = earley_tree::node_value(w, id, m, visiting);
            assert forall|j: int| 0 <= j < m2.values.len() implies (
            #[trigger] m2.values[j] matches Some(x) ==> is_shown_at(g, gr, w, j, x)) by {
                assert(m1.values[j] matches Some(x) ==> is_shown_at(g, gr, w, j, x));
            }
        }
    } else {
        lemma_derivations_shown(g, gr, w, id, m, visiting);
        let (ds, m1) = earley_tree::derivations(w, id, m, visiting);
        lemma_side_by_side_shown(g, gr, w, id, ds);
        let (v, m2) = earley_tree::node_value(w, id, m, visiting);
        assert forall|j: int| 0 <= j < m2.values.len() implies (
        #[trigger] m2.values[j] matches Some(x) ==> is_shown_at(g, gr, w, j, x) && (w.resolve
            || is_plain(x))) by {
            if j != id {
                assert(m2.values[j] == m1.values[j]);
            } else {
                assert(m1.values[j] matches Some(x) ==> is_shown_at(g, gr, w, j, x));
            }
        }
    }
}

/// What is appended for a node shows derivations.
pub proof fn lemma_rule_shown(
    g: earley_chart::Context,
    gr: earley_shape::Ground,
    w: earley_rank::Walk,
    id: int,
    b: earley_tree::Buffer,
    m: earley_rank::Found,
    visiting: Seq<bool>,
)
    requires
        shows(g, gr, w),
        earley_value::is_node(gr, w, id),
        is_found(g, gr, w, m),
    ensures
        ({
            let (r, b1, m1) = earley_tree::rule_appended(w, id, b, m, visiting);
            &&& is_found(g, gr, w, m1)
            &&& r matches Some(rule) ==> is_appended(g, gr, w, id, rule, b, b1)
                && w.forest.nodes[id].families.len() > 0
        }),
    decreases bits::missing(visiting), 2nat, 0nat,
{
    if 0 <= id < visiting.len() && !visiting[id] {
        let (order, prio) = earley_rank::tried(w, id, m.prio);
        let fs = w.forest.nodes[id].families;
        let vs = earley_rank::family_priorities(w, id, m.prio, fs.len()).0;
        earley_rank::lemma_in_order(w, fs, vs, fs.len());
        empty_values::lemma_visit(visiting, id);
        lemma_tried_shown(
            g,
            gr,
            w,
            id,
            order,
            0,
            b,
            earley_rank::entered(m, prio),
            visiting.update(id, true),
        );
    }
}

pub proof fn lemma_tried_shown(
    g: earley_chart::Context,
    gr: earley_shape::Ground,
    w: earley_rank::Walk,
    id: int,
    order: Seq<usize>,
    k: nat,
    b: earley_tree::Buffer,
    m: earley_rank::Found,
    visiting: Seq<bool>,
)
    requires
        shows(g, gr, w),
        earley_value::is_node(gr, w, id),
        is_found(g, gr, w, m),
        forall|i: int|
            0 <= i < order.len() ==> #[trigger] order[i] < w.forest.nodes[id].families.len(),
    ensures
        ({
            let (r, b1, m1) = earley_tree::families_tried(w, id, order, k, b, m, visiting);
            &&& is_found(g, gr, w, m1)
            &&& r matches Some(rule) ==> is_appended(g, gr, w, id, rule, b, b1)
                && w.forest.nodes[id].families.len() > 0
        }),
    decreases bits::missing(visiting), 7nat, order.len() - k,
{
    if k < order.len() {
        let p = w.forest.nodes[id].families[order[k as int] as int];
        assert(earley_shape::is_family(g, gr, w.forest, w.forest.nodes[id], p));
        lemma_packed_shown(g, gr, w, id, p, b, m, visiting);
        let (ok, _b1, m1) = earley_tree::packed_appended(w, p, b, m, visiting);
        if !ok {
            lemma_tried_shown(g, gr, w, id, order, k + 1, b, m1, visiting);
        }
    }
}

pub proof fn lemma_packed_shown(
    g: earley_chart::Context,
    gr: earley_shape::Ground,
    w: earley_rank::Walk,
    id: int,
    p: Packed,
    b: earley_tree::Buffer,
    m: earley_rank::Found,
    visiting: Seq<bool>,
)
    requires
        shows(g, gr, w),
        earley_value::is_node(gr, w, id),
        is_found(g, gr, w, m),
        earley_shape::is_family(g, gr, w.forest, w.forest.nodes[id], p),
    ensures
        ({
            let (ok, b1, m1) = earley_tree::packed_appended(w, p, b, m, visiting);
            &&& is_found(g, gr, w, m1)
            &&& ok ==> is_appended(g, gr, w, id, p.rule as int, b, b1)
        }),
    decreases bits::missing(visiting), 6nat, 0nat,
{
    let n = w.forest.nodes[id];
    let rule = p.rule as int;
    match p.left {
        ForestRef::Nothing => {
            let none = Seq::<tree_builder::SlotModel>::empty();
            lemma_nothing_between(g, gr, w, id, p);
            assert(b.nodes + tree_builder::kept_children(g.rules[rule], none) =~= b.nodes);
            if p.right is Nothing {
                lemma_none_shown(g, gr, w, rule, n.start, n.end);
                assert(is_appended(g, gr, w, id, rule, b, b));
            } else {
                lemma_none_shown(g, gr, w, rule, n.start, n.start);
                lemma_right_shown(g, gr, w, id, p, none, b, b, m, visiting);
            }
        },
        ForestRef::Node(l) => {
            lemma_rule_shown(g, gr, w, l as int, b, m, visiting);
            let (r, b1, m1) = earley_tree::rule_appended(w, l as int, b, m, visiting);
            if let Some(q) = r {
                let c = w.forest.nodes[l as int];
                let (dot, vs) = choose|dot: int, vs: Seq<tree_builder::SlotModel>| #[trigger]
                    are_shown(g, gr, w, q, dot, c.start, c.end, vs) && c.key
                        == earley_chart::key_at(g, q as usize, dot) && b1.nodes == b.nodes
                        + tree_builder::kept_children(g.rules[q], vs);
                assert(q == rule && dot == p.right_pos);
                lemma_right_shown(g, gr, w, id, p, vs, b, b1, m1, visiting);
            }
        },
        ForestRef::Tok(t) => {},
    }
}

/// The value of the last symbol of a family, appended.
proof fn lemma_extended_shown(
    g: earley_chart::Context,
    gr: earley_shape::Ground,
    w: earley_rank::Walk,
    id: int,
    p: Packed,
    vs: Seq<tree_builder::SlotModel>,
    v: tree_builder::SlotModel,
    first: earley_tree::Buffer,
    b: earley_tree::Buffer,
)
    requires
        shows(g, gr, w),
        earley_shape::is_family(g, gr, w.forest, w.forest.nodes[id], p),
        !(p.right is Nothing),
        are_shown(
            g,
            gr,
            w,
            p.rule as int,
            p.right_pos as int,
            w.forest.nodes[id].start,
            earley_shape::mid_of(w.forest, w.forest.nodes[id], p),
            vs,
        ),
        b.nodes == first.nodes + tree_builder::kept_children(g.rules[p.rule as int], vs),
        is_shown(
            g,
            gr,
            w,
            g.rules[p.rule as int].expansion[p.right_pos as int],
            earley_shape::mid_of(w.forest, w.forest.nodes[id], p),
            w.forest.nodes[id].end,
            v,
        ),
        slot_fits(w.resolve, g.rules[p.rule as int], p.right_pos as int, v),
    ensures
        is_appended(
            g,
            gr,
            w,
            id,
            p.rule as int,
            first,
            earley_tree::with_value(
                w,
                earley_tree::with_gap(w, b, p.rule as int, p.right_pos as int),
                p.rule as int,
                p.right_pos as int,
                v,
            ),
        ),
{
    let n = w.forest.nodes[id];
    let rule = p.rule as int;
    let pos = p.right_pos as int;
    let mid = earley_shape::mid_of(w.forest, n, p);
    lemma_shown_push(g, gr, w, rule, pos, n.start, mid, n.end, vs, v);
    let gap = earley_tree::with_gap(w, b, rule, pos);
    let c = earley_tree::with_value(w, gap, rule, pos, v);
    assert(vs.push(v).drop_last() =~= vs);
    assert(c.nodes =~= first.nodes + tree_builder::kept_children(g.rules[rule], vs.push(v)));
}

pub proof fn lemma_right_shown(
    g: earley_chart::Context,
    gr: earley_shape::Ground,
    w: earley_rank::Walk,
    id: int,
    p: Packed,
    vs: Seq<tree_builder::SlotModel>,
    first: earley_tree::Buffer,
    b: earley_tree::Buffer,
    m: earley_rank::Found,
    visiting: Seq<bool>,
)
    requires
        shows(g, gr, w),
        earley_value::is_node(gr, w, id),
        is_found(g, gr, w, m),
        earley_shape::is_family(g, gr, w.forest, w.forest.nodes[id], p),
        !(p.right is Nothing),
        are_shown(
            g,
            gr,
            w,
            p.rule as int,
            p.right_pos as int,
            w.forest.nodes[id].start,
            earley_shape::mid_of(w.forest, w.forest.nodes[id], p),
            vs,
        ),
        b.nodes == first.nodes + tree_builder::kept_children(g.rules[p.rule as int], vs),
    ensures
        ({
            let (ok, b1, m1) = earley_tree::right_appended(w, p, b, m, visiting);
            &&& is_found(g, gr, w, m1)
            &&& ok ==> is_appended(g, gr, w, id, p.rule as int, first, b1)
        }),
    decreases bits::missing(visiting), 5nat, 0nat,
{
    let rule = p.rule as int;
    let pos = p.right_pos as int;
    let gap = earley_tree::with_gap(w, b, rule, pos);
    match p.right {
        ForestRef::Nothing => {},
        ForestRef::Tok(t) => {
            lemma_token_shown(g, gr, w, id, p, t);
            lemma_extended_shown(
                g,
                gr,
                w,
                id,
                p,
                vs,
                earley_tree::token_value(w, t as int),
                first,
                b,
            );
        },
        ForestRef::Node(c) => {
            lemma_child_node(g, gr, w, id, p, c);
            if earley_tree::is_transparent(w, c as int) {
                lemma_rule_shown(g, gr, w, c as int, gap, m, visiting);
                let (r, b1, m1) = earley_tree::rule_appended(w, c as int, gap, m, visiting);
                if let Some(q) = r {
                    let v = lemma_spliced_shown(g, gr, w, c as int, q, gap, b1);
                    lemma_shown_on(g, gr, w, id, p, c, v);
                    lemma_extended_shown(g, gr, w, id, p, vs, v, first, b);
                    let (ok, b2, m2) = earley_tree::right_appended(w, p, b, m, visiting);
                    let x = earley_tree::with_value(w, gap, rule, pos, v);
                    assert(b2.nodes =~= x.nodes);
                    lemma_appended_nodes(g, gr, w, id, rule, first, x, b2);
                }
            } else {
                lemma_node_shown(g, gr, w, c as int, m, visiting);
                let (v, m1) = earley_tree::node_value(w, c as int, m, visiting);
                if let Some(x) = v {
                    lemma_shown_on(g, gr, w, id, p, c, x);
                    lemma_extended_shown(g, gr, w, id, p, vs, x, first, b);
                }
            }
        },
    }
}

/// What is appended shows derivations whatever the span.
proof fn lemma_appended_nodes(
    g: earley_chart::Context,
    gr: earley_shape::Ground,
    w: earley_rank::Walk,
    id: int,
    rule: int,
    b: earley_tree::Buffer,
    c: earley_tree::Buffer,
    d: earley_tree::Buffer,
)
    requires
        is_appended(g, gr, w, id, rule, b, c),
        c.nodes == d.nodes,
    ensures
        is_appended(g, gr, w, id, rule, b, d),
{
    let n = w.forest.nodes[id];
    let (dot, vs) = choose|dot: int, vs: Seq<tree_builder::SlotModel>| #[trigger]
        are_shown(g, gr, w, rule, dot, n.start, n.end, vs) && n.key == earley_chart::key_at(
            g,
            rule as usize,
            dot,
        ) && c.nodes == b.nodes + tree_builder::kept_children(g.rules[rule], vs);
    assert(are_shown(g, gr, w, rule, dot, n.start, n.end, vs));
}

/// The node of the last symbol of a family: a nonterminal's.
pub proof fn lemma_child_node(
    g: earley_chart::Context,
    gr: earley_shape::Ground,
    w: earley_rank::Walk,
    id: int,
    p: Packed,
    c: usize,
)
    requires
        shows(g, gr, w),
        earley_value::is_node(gr, w, id),
        earley_shape::is_family(g, gr, w.forest, w.forest.nodes[id], p),
        p.right == ForestRef::Node(c),
    ensures
        earley_value::is_node(gr, w, c as int),
        w.forest.nodes[c as int].key == NodeKey::Sym(
            g.rules[p.rule as int].expansion[p.right_pos as int],
        ),
{
}

/// The value of a transparent node whose children are appended.
proof fn lemma_spliced_shown(
    g: earley_chart::Context,
    gr: earley_shape::Ground,
    w: earley_rank::Walk,
    id: int,
    rule: int,
    b: earley_tree::Buffer,
    c: earley_tree::Buffer,
) -> (v: tree_builder::SlotModel)
    requires
        shows(g, gr, w),
        earley_value::is_node(gr, w, id),
        w.forest.nodes[id].key is Sym,
        earley_tree::is_transparent(w, id),
        is_appended(g, gr, w, id, rule, b, c),
    ensures
        is_shown_at(g, gr, w, id, v),
        v is Inline,
        c.nodes + tree_builder::trailing_absents(g.rules[rule]) == b.nodes + v->Inline_0,
{
    let n = w.forest.nodes[id];
    let (dot, vs) = choose|dot: int, vs: Seq<tree_builder::SlotModel>| #[trigger]
        are_shown(g, gr, w, rule, dot, n.start, n.end, vs) && n.key == earley_chart::key_at(
            g,
            rule as usize,
            dot,
        ) && c.nodes == b.nodes + tree_builder::kept_children(g.rules[rule], vs);
    let first = n.families[0];
    assert(earley_shape::is_family(g, gr, w.forest, n, first));
    assert(g.rules[first.rule as int].origin == g.rules[rule].origin);
    assert(g.rules[rule].transparent);
    lemma_assembled_shown(g, gr, w, rule, n.start, n.end, vs);
    let v = tree_builder::assembled(g.rules[rule], w.pp, vs);
    assert(c.nodes + tree_builder::trailing_absents(g.rules[rule]) =~= b.nodes + v->Inline_0);
    v
}

/// All derivations of a node show derivations.
pub proof fn lemma_derivations_shown(
    g: earley_chart::Context,
    gr: earley_shape::Ground,
    w: earley_rank::Walk,
    id: int,
    m: earley_rank::Found,
    visiting: Seq<bool>,
)
    requires
        !w.resolve,
        shows(g, gr, w),
        earley_value::is_node(gr, w, id),
        w.forest.nodes[id].key is Sym,
        is_found(g, gr, w, m),
    ensures
        ({
            let (ds, m1) = earley_tree::derivations(w, id, m, visiting);
            &&& is_found(g, gr, w, m1)
            &&& all_shown_at(g, gr, w, id, ds)
        }),
    decreases bits::missing(visiting), 2nat, 0nat,
{
    if m.derivs[id] is Some {
        assert(all_shown_at(g, gr, w, id, m.derivs[id]->0));
    } else if 0 <= id < visiting.len() && !visiting[id] {
        let (order, prio) = earley_rank::tried(w, id, m.prio);
        let fs = w.forest.nodes[id].families;
        let vs = earley_rank::family_priorities(w, id, m.prio, fs.len()).0;
        earley_rank::lemma_in_order(w, fs, vs, fs.len());
        empty_values::lemma_visit(visiting, id);
        lemma_families_shown(
            g,
            gr,
            w,
            id,
            order,
            order.len(),
            earley_rank::entered(m, prio),
            visiting.update(id, true),
        );
        let (ds, m1) = earley_tree::families_derived(
            w,
            id,
            order,
            order.len(),
            earley_rank::entered(m, prio),
            visiting.update(id, true),
        );
        let (ds2, m2) = earley_tree::derivations(w, id, m, visiting);
        assert forall|j: int| 0 <= j < m2.derivs.len() implies (
        #[trigger] m2.derivs[j] matches Some(d) ==> all_shown_at(g, gr, w, j, d)) by {
            if j != id {
                assert(m2.derivs[j] == m1.derivs[j]);
            } else {
                assert(m1.derivs[j] matches Some(d) ==> all_shown_at(g, gr, w, j, d));
            }
        }
    }
}

pub proof fn lemma_families_shown(
    g: earley_chart::Context,
    gr: earley_shape::Ground,
    w: earley_rank::Walk,
    id: int,
    order: Seq<usize>,
    k: nat,
    m: earley_rank::Found,
    visiting: Seq<bool>,
)
    requires
        !w.resolve,
        shows(g, gr, w),
        earley_value::is_node(gr, w, id),
        w.forest.nodes[id].key is Sym,
        is_found(g, gr, w, m),
        k <= order.len(),
        forall|i: int|
            0 <= i < order.len() ==> #[trigger] order[i] < w.forest.nodes[id].families.len(),
    ensures
        ({
            let (ds, m1) = earley_tree::families_derived(w, id, order, k, m, visiting);
            &&& is_found(g, gr, w, m1)
            &&& all_shown_at(g, gr, w, id, ds)
        }),
    decreases bits::missing(visiting), 7nat, k,
{
    if k > 0 {
        lemma_families_shown(g, gr, w, id, order, (k - 1) as nat, m, visiting);
        let (ds, m1) = earley_tree::families_derived(w, id, order, (k - 1) as nat, m, visiting);
        let n = w.forest.nodes[id];
        let p = n.families[order[k - 1] as int];
        assert(earley_shape::is_family(g, gr, w.forest, w.forest.nodes[id], p));
        lemma_expanded_shown(g, gr, w, id, p, m1, visiting);
        let (lists, m2) = earley_tree::packed_expanded(w, p, m1, visiting);
        let first = n.families[0];
        assert(earley_shape::is_family(g, gr, w.forest, n, first));
        assert(n.key == NodeKey::Sym(g.rules[p.rule as int].origin));
        assert(n.key == NodeKey::Sym(g.rules[first.rule as int].origin));
        assert(reach_of(p) == g.rules[p.rule as int].expansion.len());
        lemma_outcomes_shown(g, gr, w, id, p.rule as int, ds, lists, lists.len());
    }
}

/// The lists of children by which a family can be built show derivations.
pub proof fn lemma_expanded_shown(
    g: earley_chart::Context,
    gr: earley_shape::Ground,
    w: earley_rank::Walk,
    id: int,
    p: Packed,
    m: earley_rank::Found,
    visiting: Seq<bool>,
)
    requires
        !w.resolve,
        shows(g, gr, w),
        earley_value::is_node(gr, w, id),
        is_found(g, gr, w, m),
        earley_shape::is_family(g, gr, w.forest, w.forest.nodes[id], p),
    ensures
        ({
            let (lists, m1) = earley_tree::packed_expanded(w, p, m, visiting);
            &&& is_found(g, gr, w, m1)
            &&& lists_shown(
                g,
                gr,
                w,
                p.rule as int,
                reach_of(p),
                w.forest.nodes[id].start,
                w.forest.nodes[id].end,
                lists,
            )
        }),
    decreases bits::missing(visiting), 6nat, 0nat,
{
    let n = w.forest.nodes[id];
    let rule = p.rule as int;
    match p.left {
        ForestRef::Nothing => {
            lemma_nothing_between(g, gr, w, id, p);
            let lefts = seq![Seq::<tree_builder::SlotModel>::empty()];
            if p.right is Nothing {
                lemma_none_shown(g, gr, w, rule, n.start, n.end);
            } else {
                lemma_none_shown(g, gr, w, rule, n.start, n.start);
                lemma_right_lists(g, gr, w, id, p, lefts, m, visiting);
            }
        },
        ForestRef::Node(l) => {
            lemma_inter_shown(g, gr, w, l as int, p.rule, p.right_pos, m, visiting);
            let (lefts, m1) = earley_tree::inter_expanded(w, l as int, m, visiting);
            if lefts.len() > 0 {
                lemma_right_lists(g, gr, w, id, p, lefts, m1, visiting);
            }
        },
        ForestRef::Tok(t) => {},
    }
}

/// The values of the last symbol of a family behind lists.
pub proof fn lemma_right_lists(
    g: earley_chart::Context,
    gr: earley_shape::Ground,
    w: earley_rank::Walk,
    id: int,
    p: Packed,
    lefts: Seq<Seq<tree_builder::SlotModel>>,
    m: earley_rank::Found,
    visiting: Seq<bool>,
)
    requires
        !w.resolve,
        shows(g, gr, w),
        earley_value::is_node(gr, w, id),
        is_found(g, gr, w, m),
        earley_shape::is_family(g, gr, w.forest, w.forest.nodes[id], p),
        !(p.right is Nothing),
        lists_shown(
            g,
            gr,
            w,
            p.rule as int,
            p.right_pos as int,
            w.forest.nodes[id].start,
            earley_shape::mid_of(w.forest, w.forest.nodes[id], p),
            lefts,
        ),
    ensures
        ({
            let (lists, m1) = earley_tree::right_expanded(w, p, lefts, m, visiting);
            &&& is_found(g, gr, w, m1)
            &&& lists_shown(
                g,
                gr,
                w,
                p.rule as int,
                p.right_pos + 1,
                w.forest.nodes[id].start,
                w.forest.nodes[id].end,
                lists,
            )
        }),
    decreases bits::missing(visiting), 5nat, 1nat,
{
    match p.right {
        ForestRef::Nothing => {},
        ForestRef::Tok(t) => {
            lemma_token_shown(g, gr, w, id, p, t);
            let rights = seq![earley_tree::token_value(w, t as int)];
            lemma_combined_shown(g, gr, w, id, p, lefts, rights, lefts.len());
        },
        ForestRef::Node(c) => {
            lemma_rights_shown(g, gr, w, id, p, c, m, visiting);
            let (rights, m1) = earley_tree::right_alternatives(w, p, c as int, m, visiting);
            lemma_combined_shown(g, gr, w, id, p, lefts, rights, lefts.len());
        },
    }
}

/// The values that the last symbol of a family can have show derivations.
pub proof fn lemma_rights_shown(
    g: earley_chart::Context,
    gr: earley_shape::Ground,
    w: earley_rank::Walk,
    id: int,
    p: Packed,
    c: usize,
    m: earley_rank::Found,
    visiting: Seq<bool>,
)
    requires
        !w.resolve,
        shows(g, gr, w),
        earley_value::is_node(gr, w, id),
        is_found(g, gr, w, m),
        earley_shape::is_family(g, gr, w.forest, w.forest.nodes[id], p),
        p.right == ForestRef::Node(c),
    ensures
        ({
            let (rights, m1) = earley_tree::right_alternatives(w, p, c as int, m, visiting);
            &&& is_found(g, gr, w, m1)
            &&& forall|i: int|
                0 <= i < rights.len() ==> is_shown(
                    g,
                    gr,
                    w,
                    g.rules[p.rule as int].expansion[p.right_pos as int],
                    earley_shape::mid_of(w.forest, w.forest.nodes[id], p),
                    w.forest.nodes[id].end,
                    #[trigger] rights[i],
                ) && slot_fits(w.resolve, g.rules[p.rule as int], p.right_pos as int, rights[i])
        }),
    decreases bits::missing(visiting), 5nat, 0nat,
{
    let ci = c as int;
    lemma_child_node(g, gr, w, id, p, c);
    let open = earley_tree::is_transparent(w, ci);
    let (rights, m2) = earley_tree::right_alternatives(w, p, ci, m, visiting);
    if open || w.rules[p.rule as int].keep_all_tokens {
        let known = if open {
            earley_rank::single_known(w, ci, m.single, earley_rank::idle(w.forest.nodes.len()))
        } else {
            m.single
        };
        let m0 = earley_rank::Found { single: known, ..m };
        assert(is_found(g, gr, w, m0));
        if open && known[ci] == Some(true) {
            let blank = earley_tree::blank_buffer();
            lemma_rule_shown(g, gr, w, ci, blank, m0, visiting);
            let (r, b, m1) = earley_tree::rule_appended(w, ci, blank, m0, visiting);
            if let Some(q) = r {
                let v = lemma_spliced_shown(g, gr, w, ci, q, blank, b);
                assert(v->Inline_0 =~= b.nodes + tree_builder::trailing_absents(g.rules[q]));
                assert(rights[0] == v);
            }
        } else {
            lemma_derivations_shown(g, gr, w, ci, m0, visiting);
        }
    } else {
        lemma_node_shown(g, gr, w, ci, m, visiting);
    }
    assert forall|i: int| 0 <= i < rights.len() implies is_shown(
        g,
        gr,
        w,
        g.rules[p.rule as int].expansion[p.right_pos as int],
        earley_shape::mid_of(w.forest, w.forest.nodes[id], p),
        w.forest.nodes[id].end,
        #[trigger] rights[i],
    ) && slot_fits(w.resolve, g.rules[p.rule as int], p.right_pos as int, rights[i]) by {
        assert(is_shown_at(g, gr, w, ci, rights[i]));
        lemma_shown_on(g, gr, w, id, p, c, rights[i]);
    }
}

/// The lists of children of a part of a rule show derivations.
pub proof fn lemma_inter_shown(
    g: earley_chart::Context,
    gr: earley_shape::Ground,
    w: earley_rank::Walk,
    id: int,
    rule: usize,
    dot: usize,
    m: earley_rank::Found,
    visiting: Seq<bool>,
)
    requires
        !w.resolve,
        shows(g, gr, w),
        earley_value::is_node(gr, w, id),
        is_found(g, gr, w, m),
        w.forest.nodes[id].key == NodeKey::Inter(rule, dot),
    ensures
        ({
            let (lists, m1) = earley_tree::inter_expanded(w, id, m, visiting);
            &&& is_found(g, gr, w, m1)
            &&& lists_shown(
                g,
                gr,
                w,
                rule as int,
                dot as int,
                w.forest.nodes[id].start,
                w.forest.nodes[id].end,
                lists,
            )
        }),
    decreases bits::missing(visiting), 2nat, 0nat,
{
    if 0 <= id < visiting.len() && !visiting[id] {
        let (order, prio) = earley_rank::tried(w, id, m.prio);
        let fs = w.forest.nodes[id].families;
        let vs = earley_rank::family_priorities(w, id, m.prio, fs.len()).0;
        earley_rank::lemma_in_order(w, fs, vs, fs.len());
        empty_values::lemma_visit(visiting, id);
        lemma_inter_families(
            g,
            gr,
            w,
            id,
            rule,
            dot,
            order,
            order.len(),
            earley_rank::entered(m, prio),
            visiting.update(id, true),
        );
    }
}

pub proof fn lemma_inter_families(
    g: earley_chart::Context,
    gr: earley_shape::Ground,
    w: earley_rank::Walk,
    id: int,
    rule: usize,
    dot: usize,
    order: Seq<usize>,
    k: nat,
    m: earley_rank::Found,
    visiting: Seq<bool>,
)
    requires
        !w.resolve,
        shows(g, gr, w),
        earley_value::is_node(gr, w, id),
        is_found(g, gr, w, m),
        w.forest.nodes[id].key == NodeKey::Inter(rule, dot),
        k <= order.len(),
        forall|i: int|
            0 <= i < order.len() ==> #[trigger] order[i] < w.forest.nodes[id].families.len(),
    ensures
        ({
            let (lists, m1) = earley_tree::families_expanded(w, id, order, k, m, visiting);
            &&& is_found(g, gr, w, m1)
            &&& lists_shown(
                g,
                gr,
                w,
                rule as int,
                dot as int,
                w.forest.nodes[id].start,
                w.forest.nodes[id].end,
                lists,
            )
        }),
    decreases bits::missing(visiting), 7nat, k,
{
    if k > 0 {
        lemma_inter_families(g, gr, w, id, rule, dot, order, (k - 1) as nat, m, visiting);
        let (out, m1) = earley_tree::families_expanded(
            w,
            id,
            order,
            (k - 1) as nat,
            m,
            visiting,
        );
        let n = w.forest.nodes[id];
        let p = n.families[order[k - 1] as int];
        assert(earley_shape::is_family(g, gr, w.forest, w.forest.nodes[id], p));
        lemma_expanded_shown(g, gr, w, id, p, m1, visiting);
        assert(g.rules[p.rule as int].expansion.len() <= usize::MAX) by {
            assert(g.rules[p.rule as int].origin.ix() >= g.nt);
        }
        assert(p.rule == rule && reach_of(p) == dot);
        let (lists, m2) = earley_tree::packed_expanded(w, p, m1, visiting);
        assert forall|i: int| 0 <= i < (out + lists).len() implies are_shown(
            g,
            gr,
            w,
            rule as int,
            dot as int,
            n.start,
            n.end,
            #[trigger] (out + lists)[i],
        ) by {
            if i < out.len() {
                assert((out + lists)[i] == out[i]);
            } else {
                assert((out + lists)[i] == lists[i - out.len()]);
            }
        }
    }
}

/// All that the value of the root shows are derivations of what it spans.
pub proof fn lemma_root_shown(
    g: earley_chart::Context,
    gr: earley_shape::Ground,
    w: earley_rank::Walk,
    root: int,
    s: SymbolId,
)
    requires
        shows(g, gr, w),
        earley_value::is_node(gr, w, root),
        w.forest.nodes[root].key == NodeKey::Sym(s),
        w.resolve || derivation::is_solid(g.rules, s),
    ensures
        earley_tree::transformed(w, root) matches Some(v) ==> is_shown(
            g,
            gr,
            w,
            s,
            w.forest.nodes[root].start,
            w.forest.nodes[root].end,
            v,
        ) && (w.resolve || is_plain(v)),
{
    let n = w.forest.nodes.len();
    let m = earley_tree::nothing_found(n);
    assert(w.resolve || !earley_tree::is_transparent(w, root)) by {
        if w.forest.nodes[root].families.len() > 0 {
            let p = w.forest.nodes[root].families[0];
            assert(earley_shape::is_family(g, gr, w.forest, w.forest.nodes[root], p));
            assert(g.rules[p.rule as int].origin == s);
        }
    }
    lemma_node_shown(g, gr, w, root, m, earley_rank::idle(n));
}

/// What is left of the root is the root of what is left of its value.
proof fn lemma_rooted_picked(
    one: bool,
    name: Seq<char>,
    v: tree_builder::SlotModel,
    u: tree::Node,
) -> (x: tree_builder::SlotModel)
    requires
        one || is_plain(v),
        picks(one, earley::rooted(v, name), u),
    ensures
        picked(one, v, x),
        forall|y: tree_builder::SlotModel| #[trigger]
            value_key::same_structure(x, y) ==> value_key::same_node(u, earley::rooted(y, name)),
{
    let x = match v {
        tree_builder::SlotModel::Value(_) => earley_tree::as_value(u),
        tree_builder::SlotModel::Inline(ns) => if ns.len() == 1 && ns[0] is Absent {
            v
        } else {
            tree_builder::SlotModel::Inline(u->children)
        },
    };
    assert forall|y: tree_builder::SlotModel| #[trigger]
        value_key::same_structure(x, y) implies value_key::same_node(
        u,
        earley::rooted(y, name),
    ) by {
        if let tree_builder::SlotModel::Inline(ns) = x {
            if ns.len() == 1 {
                assert(value_key::same_node(ns[0], y->Inline_0[0]));
                if v is Inline && !(v->Inline_0[0] is Absent) {
                    assert(picks(one, v->Inline_0[0], ns[0]));
                }
            }
        }
    }
    x
}

/// Whatever is left of the root of a forest is the root of the value of a derivation
/// of tokens that it spans, up to structure.
pub proof fn lemma_root_picked(
    g: earley_chart::Context,
    gr: earley_shape::Ground,
    w: earley_rank::Walk,
    root: int,
    s: SymbolId,
    name: Seq<char>,
    u: tree::Node,
) -> (x: tree_builder::SlotModel)
    requires
        shows(g, gr, w),
        earley_value::is_node(gr, w, root),
        w.forest.nodes[root].key == NodeKey::Sym(s),
        w.resolve || derivation::is_solid(g.rules, s),
        earley_tree::transformed(w, root) matches Some(v) && picks(
            w.resolve,
            earley::rooted(v, name),
            u,
        ),
    ensures
        earley_value::is_valued(
            g,
            gr,
            w,
            s,
            w.forest.nodes[root].start,
            w.forest.nodes[root].end,
            x,
        ),
        value_key::same_node(u, earley::rooted(x, name)),
{
    let n = w.forest.nodes[root];
    lemma_root_shown(g, gr, w, root, s);
    let v = earley_tree::transformed(w, root)->0;
    let y = lemma_rooted_picked(w.resolve, name, v, u);
    assert(is_like(g, gr, w, s, n.start, n.end, y));
    choose|x: tree_builder::SlotModel| #[trigger]
        earley_value::is_valued(g, gr, w, s, n.start, n.end, x) && value_key::same_structure(y, x)
}

} // verus!
