//! Every derivation is shown: each value of a derivation is left of what is shown,
//! where the right alternative is picked at every ambiguity node.

use vstd::prelude::*;
use crate::bits;
use crate::derivation;
use crate::earley_alone;
use crate::earley_chain;
use crate::earley_chart;
use crate::earley_fill;
use crate::earley_forest::{ForestRef, NodeKey, Packed};
use crate::earley_offered;
use crate::earley_rank;
use crate::earley_shape;
use crate::earley_shown;
use crate::earley_tree;
use crate::earley_value;
use crate::empty_values;
use crate::symbols::SymbolId;
use crate::tree;
use crate::tree_builder;

verus! {

// ---------------------------------------------------------------------------
// Families

/// Whether the values are those of a derivation that a family stands for.
pub open spec fn suits(
    g: earley_chart::Context,
    gr: earley_shape::Ground,
    w: earley_rank::Walk,
    id: int,
    p: Packed,
    xs: Seq<tree_builder::SlotModel>,
) -> bool {
    let n = w.forest.nodes[id];
    let mid = earley_shape::mid_of(w.forest, n, p);
    if p.right is Nothing {
        xs.len() == 0
    } else {
        &&& xs.len() == p.right_pos + 1
        &&& earley_value::is_part(
            g,
            gr,
            w,
            p.rule as int,
            p.right_pos as int,
            n.start,
            mid,
            xs.drop_last(),
        )
        &&& earley_value::is_valued(
            g,
            gr,
            w,
            g.rules[p.rule as int].expansion[p.right_pos as int],
            mid,
            n.end,
            xs.last(),
        )
    }
}

/// Whether a node has a family that stands for a derivation by the first `dot`
/// symbols of a rule with the given values.
pub open spec fn has_suit(
    g: earley_chart::Context,
    gr: earley_shape::Ground,
    w: earley_rank::Walk,
    id: int,
    r: int,
    dot: int,
    xs: Seq<tree_builder::SlotModel>,
) -> bool {
    exists|j: int|
        0 <= j < w.forest.nodes[id].families.len() && (
        #[trigger] w.forest.nodes[id].families[j]).rule == r && earley_shown::reach_of(
            w.forest.nodes[id].families[j],
        ) == dot && suits(g, gr, w, id, w.forest.nodes[id].families[j], xs)
}

/// Whether a forest has a family for every derivation, at the nodes visited.
#[verifier::opaque]
pub open spec fn has_every(
    g: earley_chart::Context,
    gr: earley_shape::Ground,
    w: earley_rank::Walk,
    vis: Seq<usize>,
) -> bool {
    forall|id: usize, r: int, dot: int, xs: Seq<tree_builder::SlotModel>|
        vis.contains(id) && w.forest.nodes[id as int].key == earley_chart::key_at(
            g,
            r as usize,
            dot,
        ) && (dot > 0 || g.rules[r].expansion.len() == 0) && #[trigger] earley_value::is_part(
            g,
            gr,
            w,
            r,
            dot,
            w.forest.nodes[id as int].start,
            w.forest.nodes[id as int].end,
            xs,
        ) ==> has_suit(g, gr, w, id as int, r, dot, xs)
}

/// A node visited has a family for every derivation.
proof fn lemma_suit(
    g: earley_chart::Context,
    gr: earley_shape::Ground,
    w: earley_rank::Walk,
    vis: Seq<usize>,
    id: usize,
    r: int,
    dot: int,
    xs: Seq<tree_builder::SlotModel>,
) -> (j: int)
    requires
        has_every(g, gr, w, vis),
        vis.contains(id),
        w.forest.nodes[id as int].key == earley_chart::key_at(g, r as usize, dot),
        dot > 0 || g.rules[r].expansion.len() == 0,
        earley_value::is_part(
            g,
            gr,
            w,
            r,
            dot,
            w.forest.nodes[id as int].start,
            w.forest.nodes[id as int].end,
            xs,
        ),
    ensures
        0 <= j < w.forest.nodes[id as int].families.len(),
        w.forest.nodes[id as int].families[j].rule == r,
        earley_shown::reach_of(w.forest.nodes[id as int].families[j]) == dot,
        suits(g, gr, w, id as int, w.forest.nodes[id as int].families[j], xs),
{
    reveal(has_every);
    assert(has_suit(g, gr, w, id as int, r, dot, xs));
    choose|j: int|
        0 <= j < w.forest.nodes[id as int].families.len() && (
        #[trigger] w.forest.nodes[id as int].families[j]).rule == r && earley_shown::reach_of(
            w.forest.nodes[id as int].families[j],
        ) == dot && suits(g, gr, w, id as int, w.forest.nodes[id as int].families[j], xs)
}

/// Whether a walk is one over a forest that shows every derivation.
pub open spec fn tells(
    g: earley_chart::Context,
    gr: earley_shape::Ground,
    w: earley_rank::Walk,
    vis: Seq<usize>,
) -> bool {
    &&& earley_shown::shows(g, gr, w)
    &&& !w.resolve
    &&& !gr.loose
    &&& earley_fill::flags_true(g)
    &&& g.rules.len() <= usize::MAX
    &&& earley_shape::labels_ok(g, gr, w.forest)
    &&& earley_alone::has_no_loops(g.rules, g.nt)
    &&& has_every(g, gr, w, vis)
    &&& forall|v: usize| #[trigger]
        vis.contains(v) ==> earley_value::is_node(gr, w, v as int) && earley_alone::is_named(
            g,
            w.forest.nodes[v as int],
        ) && w.forest.nodes[v as int].families.len() > 0
    &&& forall|v: usize, j: int, c: usize|
        #![trigger vis.contains(v), earley_chain::refers(w.forest.nodes[v as int].families[j], c)]
        vis.contains(v) && 0 <= j < w.forest.nodes[v as int].families.len()
            && earley_chain::refers(w.forest.nodes[v as int].families[j], c) ==> vis.contains(c)
}

/// Whether the nodes being built rest on the node `id`.
pub open spec fn all_above(
    g: earley_chart::Context,
    w: earley_rank::Walk,
    visiting: Seq<bool>,
    id: int,
) -> bool {
    &&& visiting.len() == w.forest.nodes.len()
    &&& forall|y: int|
        0 <= y < visiting.len() && #[trigger] visiting[y] ==> earley_alone::is_above(
            g,
            w.forest,
            y,
            id,
        ) && earley_alone::is_named(g, w.forest.nodes[y])
}

/// The parts of a family rest below its node and below what rests on it.
proof fn lemma_part_below(
    g: earley_chart::Context,
    gr: earley_shape::Ground,
    w: earley_rank::Walk,
    vis: Seq<usize>,
    id: usize,
    j: int,
    c: usize,
    visiting: Seq<bool>,
)
    requires
        tells(g, gr, w, vis),
        vis.contains(id),
        0 <= j < w.forest.nodes[id as int].families.len(),
        earley_chain::refers(w.forest.nodes[id as int].families[j], c),
        all_above(g, w, visiting, id as int),
    ensures
        vis.contains(c),
        all_above(g, w, visiting.update(id as int, true), c as int),
{
    let f = w.forest;
    let p = f.nodes[id as int].families[j];
    assert(earley_shape::is_family(g, gr, f, f.nodes[id as int], p));
    assert(earley_value::is_node(gr, w, c as int));
    let inner = visiting.update(id as int, true);
    assert forall|y: int| 0 <= y < inner.len() && #[trigger] inner[y] implies
        earley_alone::is_above(g, f, y, c as int) && earley_alone::is_named(g, f.nodes[y]) by {
        if y != id {
            assert(visiting[y]);
        }
        earley_alone::lemma_part_above(g, gr, f, id as int, p, c, y);
    }
}

/// A node that is to be built is not being built.
proof fn lemma_not_visiting(
    g: earley_chart::Context,
    gr: earley_shape::Ground,
    w: earley_rank::Walk,
    vis: Seq<usize>,
    id: usize,
    visiting: Seq<bool>,
)
    requires
        tells(g, gr, w, vis),
        vis.contains(id),
        all_above(g, w, visiting, id as int),
    ensures
        0 <= id < visiting.len(),
        !visiting[id as int],
{
    assert(earley_value::is_node(gr, w, id as int));
    if visiting[id as int] {
        earley_alone::lemma_not_above_itself(g, w.forest, id as int);
    }
}

/// The value of a nonterminal is what a rule of it makes of values.
proof fn lemma_valued_rule(
    g: earley_chart::Context,
    gr: earley_shape::Ground,
    w: earley_rank::Walk,
    s: SymbolId,
    start: usize,
    end: usize,
    x: tree_builder::SlotModel,
) -> (r: (int, Seq<tree_builder::SlotModel>))
    requires
        s.ix() >= g.nt,
        earley_value::is_valued(g, gr, w, s, start, end, x),
    ensures
        0 <= r.0 < g.rules.len(),
        g.rules[r.0].origin == s,
        x == tree_builder::assembled(g.rules[r.0], w.pp, r.1),
        earley_value::is_part(
            g,
            gr,
            w,
            r.0,
            g.rules[r.0].expansion.len() as int,
            start,
            end,
            r.1,
        ),
{
    let ts = choose|ts: Seq<tree::TokenModel>| #[trigger]
        earley_value::are_between(gr, w, start, end, ts) && derivation::yields(
            g.rules,
            g.nt,
            w.pp,
            s,
            ts,
            x,
        );
    let d = choose|d: nat| #[trigger] derivation::yields_in(g.rules, g.nt, w.pp, s, ts, x, d);
    let (r, xs) = choose|r: int, xs: Seq<tree_builder::SlotModel>| #[trigger]
        derivation::is_shaped(g.rules, w.pp, r, s, xs, x) && derivation::yields_seq_in(
            g.rules,
            g.nt,
            w.pp,
            g.rules[r].expansion,
            ts,
            xs,
            (d - 1) as nat,
        );
    let e = g.rules[r].expansion;
    assert(e.take(e.len() as int) =~= e);
    assert(derivation::yields_all(g.rules, g.nt, w.pp, e, ts, xs));
    assert(earley_value::are_between(gr, w, start, end, ts));
    (r, xs)
}

// ---------------------------------------------------------------------------
// What is told

/// Whether values offer every value of a node.
pub open spec fn all_told(
    g: earley_chart::Context,
    gr: earley_shape::Ground,
    w: earley_rank::Walk,
    id: int,
    ds: Seq<tree_builder::SlotModel>,
) -> bool {
    let n = w.forest.nodes[id];
    n.key matches NodeKey::Sym(s) ==> forall|x: tree_builder::SlotModel| #[trigger]
        earley_value::is_valued(g, gr, w, s, n.start, n.end, x) ==> earley_offered::is_offered(
            ds,
            x,
        )
}

/// Whether what a node's value is offers every value of the node.
pub open spec fn is_told(
    g: earley_chart::Context,
    gr: earley_shape::Ground,
    w: earley_rank::Walk,
    id: int,
    v: Option<tree_builder::SlotModel>,
) -> bool {
    let n = w.forest.nodes[id];
    n.key matches NodeKey::Sym(s) ==> forall|x: tree_builder::SlotModel| #[trigger]
        earley_value::is_valued(g, gr, w, s, n.start, n.end, x) ==> (v matches Some(y)
            && earley_offered::offers(y, x))
}

/// Whether lists of values offer every list of values that a family stands for.
pub open spec fn lists_told(
    g: earley_chart::Context,
    gr: earley_shape::Ground,
    w: earley_rank::Walk,
    id: int,
    p: Packed,
    lists: Seq<Seq<tree_builder::SlotModel>>,
) -> bool {
    forall|xs: Seq<tree_builder::SlotModel>| #[trigger]
        suits(g, gr, w, id, p, xs) ==> earley_offered::are_offered(lists, xs)
}

/// Whether lists of values offer every list of values of part of a rule.
pub open spec fn parts_told(
    g: earley_chart::Context,
    gr: earley_shape::Ground,
    w: earley_rank::Walk,
    rule: int,
    dot: int,
    start: usize,
    end: usize,
    lists: Seq<Seq<tree_builder::SlotModel>>,
) -> bool {
    forall|xs: Seq<tree_builder::SlotModel>| #[trigger]
        earley_value::is_part(g, gr, w, rule, dot, start, end, xs)
            ==> earley_offered::are_offered(lists, xs)
}

/// Whether what is known of nodes with one derivation is so: each has one family,
/// whose parts have one derivation.
#[verifier::opaque]
pub open spec fn singles_ok(w: earley_rank::Walk, single: Seq<Option<bool>>) -> bool {
    &&& single.len() == w.forest.nodes.len()
    &&& forall|id: int|
        0 <= id < single.len() && #[trigger] single[id] == Some(true)
            ==> w.forest.nodes[id].families.len() == 1 && earley_rank::ref_single(
            single,
            w.forest.nodes[id].families[0].left,
        ) && earley_rank::ref_single(single, w.forest.nodes[id].families[0].right)
}

/// Whether all that was found so far offers every value.
pub open spec fn is_kept(
    g: earley_chart::Context,
    gr: earley_shape::Ground,
    w: earley_rank::Walk,
    m: earley_rank::Found,
) -> bool {
    &&& earley_shown::is_found(g, gr, w, m)
    &&& singles_ok(w, m.single)
    &&& forall|id: int|
        0 <= id < m.values.len() ==> (#[trigger] m.values[id] is Some ==> is_told(
            g,
            gr,
            w,
            id,
            m.values[id],
        ))
    &&& forall|id: int|
        0 <= id < m.derivs.len() ==> (#[trigger] m.derivs[id] matches Some(ds) ==> all_told(
            g,
            gr,
            w,
            id,
            ds,
        ))
}

// ---------------------------------------------------------------------------
// Single derivations

/// A node known to have one derivation has one family, whose parts have one
/// derivation.
proof fn lemma_single(w: earley_rank::Walk, single: Seq<Option<bool>>, id: int)
    requires
        singles_ok(w, single),
        0 <= id < w.forest.nodes.len(),
        single[id] == Some(true),
    ensures
        w.forest.nodes[id].families.len() == 1,
        earley_rank::ref_single(single, w.forest.nodes[id].families[0].left),
        earley_rank::ref_single(single, w.forest.nodes[id].families[0].right),
{
    reveal(singles_ok);
}

/// Whether what was known still is.
pub open spec fn singles_grow(a: Seq<Option<bool>>, b: Seq<Option<bool>>) -> bool {
    a.len() == b.len() && forall|i: int|
        0 <= i < a.len() && a[i] is Some ==> #[trigger] b[i] == a[i]
}

proof fn lemma_single_known(
    g: earley_chart::Context,
    gr: earley_shape::Ground,
    w: earley_rank::Walk,
    id: int,
    single: Seq<Option<bool>>,
    visiting: Seq<bool>,
)
    requires
        earley_shape::families_fit(g, gr, w.forest),
        singles_ok(w, single),
        visiting.len() == w.forest.nodes.len(),
    ensures
        singles_ok(w, earley_rank::single_known(w, id, single, visiting)),
        singles_grow(single, earley_rank::single_known(w, id, single, visiting)),
    decreases bits::missing(visiting), 0nat,
{
    reveal(singles_ok);
    if 0 <= id < visiting.len() && single[id] is None && !visiting[id]
        && w.forest.nodes[id].families.len() == 1 {
        let p = w.forest.nodes[id].families[0];
        let inner = visiting.update(id, true);
        empty_values::lemma_visit(visiting, id);
        lemma_ref_known(g, gr, w, p.right, single, inner);
        let s1 = earley_rank::ref_single_known(w, p.right, single, inner);
        lemma_ref_known(g, gr, w, p.left, s1, inner);
        let s2 = earley_rank::ref_single_known(w, p.left, s1, inner);
        let out = earley_rank::single_known(w, id, single, visiting);
        if s2[id] is None {
            assert forall|i: int| 0 <= i < out.len() && #[trigger] out[i] == Some(
                true,
            ) implies w.forest.nodes[i].families.len() == 1 && earley_rank::ref_single(
                out,
                w.forest.nodes[i].families[0].left,
            ) && earley_rank::ref_single(out, w.forest.nodes[i].families[0].right) by {
                if i != id {
                    assert(s2[i] == Some(true));
                }
                assert(earley_shape::is_family(
                    g,
                    gr,
                    w.forest,
                    w.forest.nodes[i],
                    w.forest.nodes[i].families[0],
                ));
            }
        }
    } else if 0 <= id < visiting.len() && single[id] is None {
        let out = single.update(id, Some(false));
        assert forall|i: int| 0 <= i < out.len() && #[trigger] out[i] == Some(true) implies
            w.forest.nodes[i].families.len() == 1 && earley_rank::ref_single(
            out,
            w.forest.nodes[i].families[0].left,
        ) && earley_rank::ref_single(out, w.forest.nodes[i].families[0].right) by {
            assert(single[i] == Some(true));
            assert(earley_shape::is_family(
                g,
                gr,
                w.forest,
                w.forest.nodes[i],
                w.forest.nodes[i].families[0],
            ));
        }
    }
}

proof fn lemma_ref_known(
    g: earley_chart::Context,
    gr: earley_shape::Ground,
    w: earley_rank::Walk,
    r: ForestRef,
    single: Seq<Option<bool>>,
    visiting: Seq<bool>,
)
    requires
        earley_shape::families_fit(g, gr, w.forest),
        singles_ok(w, single),
        visiting.len() == w.forest.nodes.len(),
    ensures
        singles_ok(w, earley_rank::ref_single_known(w, r, single, visiting)),
        singles_grow(single, earley_rank::ref_single_known(w, r, single, visiting)),
    decreases bits::missing(visiting), 1nat,
{
    if let ForestRef::Node(c) = r {
        lemma_single_known(g, gr, w, c as int, single, visiting);
    }
}

// ---------------------------------------------------------------------------
// Orders

proof fn lemma_inserted_all(
    w: earley_rank::Walk,
    families: Seq<Packed>,
    prios: Seq<i64>,
    s: Seq<usize>,
    x: usize,
    y: usize,
)
    requires
        s.contains(y) || y == x,
    ensures
        earley_rank::inserted(w, families, prios, s, x).contains(y),
    decreases s.len(),
{
    let out = earley_rank::inserted(w, families, prios, s, x);
    if s.len() > 0 && earley_rank::tried_before(w, families, prios, x as int, s.last() as int) {
        let head = earley_rank::inserted(w, families, prios, s.drop_last(), x);
        if y == s.last() && y != x {
            assert(out[head.len() as int] == y);
        } else {
            if y != x {
                let i = choose|i: int| 0 <= i < s.len() && s[i] == y;
                assert(s.drop_last()[i] == y);
            }
            lemma_inserted_all(w, families, prios, s.drop_last(), x, y);
            let i = choose|i: int| 0 <= i < head.len() && head[i] == y;
            assert(out[i] == y);
        }
    } else if s.contains(y) {
        let i = choose|i: int| 0 <= i < s.len() && s[i] == y;
        assert(out[i] == y);
    } else {
        assert(out[s.len() as int] == y);
    }
}

/// Every family is tried.
proof fn lemma_all_tried(
    w: earley_rank::Walk,
    families: Seq<Packed>,
    prios: Seq<i64>,
    k: nat,
    y: usize,
)
    requires
        y < k <= families.len() <= usize::MAX,
    ensures
        earley_rank::in_order(w, families, prios, k).contains(y),
    decreases k,
{
    if y < k - 1 {
        lemma_all_tried(w, families, prios, (k - 1) as nat, y);
    }
    lemma_inserted_all(
        w,
        families,
        prios,
        earley_rank::in_order(w, families, prios, (k - 1) as nat),
        (k - 1) as usize,
        y,
    );
}

/// The families of a node in the order in which they are tried are all of them.
proof fn lemma_tried_all(w: earley_rank::Walk, id: int, prio: Seq<Option<i64>>)
    requires
        w.forest.nodes[id].families.len() <= usize::MAX,
    ensures
        ({
            let order = earley_rank::tried(w, id, prio).0;
            &&& order.len() == w.forest.nodes[id].families.len()
            &&& forall|i: int|
                0 <= i < order.len() ==> #[trigger] order[i] < w.forest.nodes[id].families.len()
            &&& forall|j: usize|
                j < w.forest.nodes[id].families.len() ==> #[trigger] order.contains(j)
        }),
{
    let fs = w.forest.nodes[id].families;
    let vs = earley_rank::family_priorities(w, id, prio, fs.len()).0;
    earley_rank::lemma_in_order(w, fs, vs, fs.len());
    let order = earley_rank::tried(w, id, prio).0;
    assert forall|j: usize| j < fs.len() implies #[trigger] order.contains(j) by {
        lemma_all_tried(w, fs, vs, fs.len(), j);
    }
}

// ---------------------------------------------------------------------------
// The walk

/// Derivations side by side offer every value of a node.
proof fn lemma_beside_told(
    g: earley_chart::Context,
    gr: earley_shape::Ground,
    w: earley_rank::Walk,
    id: int,
    ds: Seq<tree_builder::SlotModel>,
)
    requires
        all_told(g, gr, w, id, ds),
        earley_shown::all_shown_at(g, gr, w, id, ds),
        !earley_tree::is_transparent(w, id),
    ensures
        is_told(g, gr, w, id, earley_tree::side_by_side(ds)),
{
    let n = w.forest.nodes[id];
    let v = earley_tree::side_by_side(ds);
    if let NodeKey::Sym(s) = n.key {
        assert forall|x: tree_builder::SlotModel| #[trigger]
            earley_value::is_valued(g, gr, w, s, n.start, n.end, x) implies (v matches Some(y)
            && earley_offered::offers(y, x)) by {
            assert(earley_offered::is_offered(ds, x));
            assert forall|q: int| 0 <= q < ds.len() implies earley_shown::is_plain(
                #[trigger] ds[q],
            ) by {
                assert(earley_shown::is_shown_at(g, gr, w, id, ds[q]));
            }
            earley_offered::lemma_side_by_side_offers(ds, x);
        }
    }
}

/// A value that is kept offers every value.
proof fn lemma_value_kept(
    g: earley_chart::Context,
    gr: earley_shape::Ground,
    w: earley_rank::Walk,
    m: earley_rank::Found,
    id: int,
    v: tree_builder::SlotModel,
)
    requires
        is_kept(g, gr, w, m),
        0 <= id < m.values.len(),
        is_told(g, gr, w, id, Some(v)),
        earley_shown::is_found(
            g,
            gr,
            w,
            earley_rank::Found { values: m.values.update(id, Some(v)), ..m },
        ),
    ensures
        is_kept(g, gr, w, earley_rank::Found { values: m.values.update(id, Some(v)), ..m }),
{
    let n = earley_rank::Found { values: m.values.update(id, Some(v)), ..m };
    assert forall|q: int| 0 <= q < n.values.len() && (#[trigger] n.values[q]) is Some implies is_told(
        g,
        gr,
        w,
        q,
        n.values[q],
    ) by {
        if q != id {
            assert(m.values[q] is Some);
        }
    }
}

/// The value of a node offers every value of it.
proof fn lemma_node_told(
    g: earley_chart::Context,
    gr: earley_shape::Ground,
    w: earley_rank::Walk,
    vis: Seq<usize>,
    id: usize,
    m: earley_rank::Found,
    visiting: Seq<bool>,
)
    requires
        tells(g, gr, w, vis),
        vis.contains(id),
        w.forest.nodes[id as int].key is Sym,
        is_kept(g, gr, w, m),
        !earley_tree::is_transparent(w, id as int),
        all_above(g, w, visiting, id as int),
    ensures
        ({
            let (v, m1) = earley_tree::node_value(w, id as int, m, visiting);
            &&& is_kept(g, gr, w, m1)
            &&& is_told(g, gr, w, id as int, v)
        }),
    decreases bits::missing(visiting), 3nat, 0nat,
{
    let i = id as int;
    assert(earley_value::is_node(gr, w, i));
    earley_shown::lemma_node_shown(g, gr, w, i, m, visiting);
    if m.values[i] is Some {
        assert(is_told(g, gr, w, i, m.values[i]));
    } else {
        lemma_derivations_told(g, gr, w, vis, id, m, visiting);
        earley_shown::lemma_derivations_shown(g, gr, w, i, m, visiting);
        let (ds, m1) = earley_tree::derivations(w, i, m, visiting);
        let (v, m2) = earley_tree::node_value(w, i, m, visiting);
        lemma_beside_told(g, gr, w, i, ds);
        assert(v == earley_tree::side_by_side(ds));
        if v is Some && m1.derivs[i] is Some {
            lemma_value_kept(g, gr, w, m1, i, v->0);
        }
    }
}

/// All derivations of a node offer every value of it.
proof fn lemma_derivations_told(
    g: earley_chart::Context,
    gr: earley_shape::Ground,
    w: earley_rank::Walk,
    vis: Seq<usize>,
    id: usize,
    m: earley_rank::Found,
    visiting: Seq<bool>,
)
    requires
        tells(g, gr, w, vis),
        vis.contains(id),
        w.forest.nodes[id as int].key is Sym,
        is_kept(g, gr, w, m),
        all_above(g, w, visiting, id as int),
    ensures
        ({
            let (ds, m1) = earley_tree::derivations(w, id as int, m, visiting);
            &&& is_kept(g, gr, w, m1)
            &&& all_told(g, gr, w, id as int, ds)
        }),
    decreases bits::missing(visiting), 2nat, 0nat,
{
    let i = id as int;
    assert(earley_value::is_node(gr, w, i));
    earley_shown::lemma_derivations_shown(g, gr, w, i, m, visiting);
    lemma_not_visiting(g, gr, w, vis, id, visiting);
    if m.derivs[i] is Some {
        assert(all_told(g, gr, w, i, m.derivs[i]->0));
    } else {
        let (order, prio) = earley_rank::tried(w, i, m.prio);
        let inner = visiting.update(i, true);
        let e = earley_rank::entered(m, prio);
        lemma_tried_all(w, i, m.prio);
        empty_values::lemma_visit(visiting, i);
        lemma_families_told(g, gr, w, vis, id, order, order.len(), e, visiting);
        let (ds, m1) = earley_tree::families_derived(w, i, order, order.len(), e, inner);
        let n = w.forest.nodes[i];
        let s = n.key->Sym_0;
        assert forall|x: tree_builder::SlotModel| #[trigger]
            earley_value::is_valued(g, gr, w, s, n.start, n.end, x) implies
            earley_offered::is_offered(ds, x) by {
            lemma_symbol_node(g, gr, w, vis, id, s, x);
            let (r, xs) = lemma_valued_rule(g, gr, w, s, n.start, n.end, x);
            let len = g.rules[r].expansion.len() as int;
            assert(n.key == earley_chart::key_at(g, r as usize, len));
            let j = lemma_suit(g, gr, w, vis, id, r, len, xs);
            assert(order.contains(j as usize));
            let q = choose|q: int| 0 <= q < order.len() && order[q] == j as usize;
            assert(family_told(g, gr, w, i, order, q, ds));
        }
        let (ds2, m2) = earley_tree::derivations(w, i, m, visiting);
        assert forall|q: int| 0 <= q < m2.derivs.len() implies (
        #[trigger] m2.derivs[q] matches Some(d) ==> all_told(g, gr, w, q, d)) by {
            if q != i {
                assert(m2.derivs[q] == m1.derivs[q]);
            } else {
                assert(m1.derivs[q] matches Some(d) ==> all_told(g, gr, w, q, d));
            }
        }
        assert forall|q: int|
            0 <= q < m2.values.len() && #[trigger] m2.values[q] is Some implies is_told(
            g,
            gr,
            w,
            q,
            m2.values[q],
        ) by {
            assert(m2.values[q] == m1.values[q]);
        }
    }
}

/// The symbol of a node that has a value is no terminal.
proof fn lemma_symbol_node(
    g: earley_chart::Context,
    gr: earley_shape::Ground,
    w: earley_rank::Walk,
    vis: Seq<usize>,
    id: usize,
    s: SymbolId,
    x: tree_builder::SlotModel,
)
    requires
        tells(g, gr, w, vis),
        vis.contains(id),
        w.forest.nodes[id as int].key == NodeKey::Sym(s),
        w.forest.nodes[id as int].families.len() > 0,
    ensures
        s.ix() >= g.nt,
{
    let p = w.forest.nodes[id as int].families[0];
    assert(earley_shape::is_family(g, gr, w.forest, w.forest.nodes[id as int], p));
    assert(g.rules[p.rule as int].origin.ix() >= g.nt);
}

/// Whether values offer every value that a family stands for.
pub open spec fn family_told(
    g: earley_chart::Context,
    gr: earley_shape::Ground,
    w: earley_rank::Walk,
    id: int,
    order: Seq<usize>,
    q: int,
    ds: Seq<tree_builder::SlotModel>,
) -> bool {
    let p = w.forest.nodes[id].families[order[q] as int];
    forall|xs: Seq<tree_builder::SlotModel>| #[trigger]
        suits(g, gr, w, id, p, xs) ==> earley_offered::is_offered(
            ds,
            tree_builder::assembled(g.rules[p.rule as int], w.pp, xs),
        )
}

proof fn lemma_families_told(
    g: earley_chart::Context,
    gr: earley_shape::Ground,
    w: earley_rank::Walk,
    vis: Seq<usize>,
    id: usize,
    order: Seq<usize>,
    k: nat,
    m: earley_rank::Found,
    outer: Seq<bool>,
)
    requires
        tells(g, gr, w, vis),
        vis.contains(id),
        w.forest.nodes[id as int].key is Sym,
        is_kept(g, gr, w, m),
        all_above(g, w, outer, id as int),
        k <= order.len(),
        forall|i: int|
            0 <= i < order.len() ==> #[trigger] order[i] < w.forest.nodes[id as int].families.len(),
    ensures
        ({
            let (ds, m1) = earley_tree::families_derived(
                w,
                id as int,
                order,
                k,
                m,
                outer.update(id as int, true),
            );
            &&& is_kept(g, gr, w, m1)
            &&& forall|q: int| 0 <= q < k ==> #[trigger] family_told(g, gr, w, id as int, order, q, ds)
        }),
    decreases bits::missing(outer.update(id as int, true)), 7nat, k,
{
    let i = id as int;
    let visiting = outer.update(i, true);
    assert(earley_value::is_node(gr, w, i));
    earley_shown::lemma_families_shown(g, gr, w, i, order, k, m, visiting);
    if k > 0 {
        lemma_families_told(g, gr, w, vis, id, order, (k - 1) as nat, m, outer);
        let (ds, m1) = earley_tree::families_derived(w, i, order, (k - 1) as nat, m, visiting);
        let j = order[k - 1] as int;
        let p = w.forest.nodes[i].families[j];
        assert(order[k - 1] < w.forest.nodes[i].families.len());
        assert(earley_shape::is_family(g, gr, w.forest, w.forest.nodes[i], p));
        lemma_expanded_told(g, gr, w, vis, id, j, m1, outer);
        earley_shown::lemma_expanded_shown(g, gr, w, i, p, m1, visiting);
        let (lists, m2) = earley_tree::packed_expanded(w, p, m1, visiting);
        let all = earley_tree::outcomes_added(w, p.rule as int, ds, lists, lists.len());
        let rule = g.rules[p.rule as int];
        assert forall|q: int| 0 <= q < k implies #[trigger] family_told(
            g,
            gr,
            w,
            i,
            order,
            q,
            all,
        ) by {
            let z = w.forest.nodes[i].families[order[q] as int];
            assert forall|xs: Seq<tree_builder::SlotModel>| #[trigger]
                suits(g, gr, w, i, z, xs) implies earley_offered::is_offered(
                all,
                tree_builder::assembled(g.rules[z.rule as int], w.pp, xs),
            ) by {
                let x = tree_builder::assembled(g.rules[z.rule as int], w.pp, xs);
                earley_offered::lemma_outcomes_offer(
                    w,
                    p.rule as int,
                    ds,
                    lists,
                    lists.len(),
                    x,
                );
                if q < k - 1 {
                    assert(family_told(g, gr, w, i, order, q, ds));
                    assert(earley_offered::is_offered(ds, x));
                } else {
                    assert(earley_offered::are_offered(lists, xs));
                    let y = choose|y: int|
                        0 <= y < lists.len() && #[trigger] earley_offered::offers_all(
                            lists[y],
                            xs,
                        );
                    assert(earley_shown::are_shown(
                        g,
                        gr,
                        w,
                        p.rule as int,
                        earley_shown::reach_of(p),
                        w.forest.nodes[i].start,
                        w.forest.nodes[i].end,
                        lists[y],
                    ));
                    assert(g.rules[p.rule as int].tree_name != "_ambig"@);
                    earley_offered::lemma_assembled_offers(rule, w.pp, lists[y], xs);
                }
            }
        }
    }
}

/// The lists of children by which a family can be built offer all that it stands
/// for.
proof fn lemma_expanded_told(
    g: earley_chart::Context,
    gr: earley_shape::Ground,
    w: earley_rank::Walk,
    vis: Seq<usize>,
    id: usize,
    j: int,
    m: earley_rank::Found,
    outer: Seq<bool>,
)
    requires
        tells(g, gr, w, vis),
        vis.contains(id),
        is_kept(g, gr, w, m),
        all_above(g, w, outer, id as int),
        0 <= j < w.forest.nodes[id as int].families.len(),
    ensures
        ({
            let p = w.forest.nodes[id as int].families[j];
            let (lists, m1) = earley_tree::packed_expanded(
                w,
                p,
                m,
                outer.update(id as int, true),
            );
            &&& is_kept(g, gr, w, m1)
            &&& lists_told(g, gr, w, id as int, p, lists)
        }),
    decreases bits::missing(outer.update(id as int, true)), 6nat, 0nat,
{
    let i = id as int;
    let visiting = outer.update(i, true);
    let n = w.forest.nodes[i];
    let p = n.families[j];
    let rule = p.rule as int;
    let mid = earley_shape::mid_of(w.forest, n, p);
    assert(earley_value::is_node(gr, w, i));
    assert(earley_shape::is_family(g, gr, w.forest, w.forest.nodes[i], p));
    match p.left {
        ForestRef::Nothing => {
            let none = Seq::<tree_builder::SlotModel>::empty();
            let lefts = seq![none];
            if p.right is Nothing {
                assert forall|xs: Seq<tree_builder::SlotModel>| #[trigger]
                    suits(g, gr, w, i, p, xs) implies earley_offered::are_offered(lefts, xs) by {
                    assert(earley_offered::offers_all(lefts[0], xs));
                }
            } else {
                assert(parts_told(g, gr, w, rule, 0, n.start, mid, lefts)) by {
                    assert forall|xs: Seq<tree_builder::SlotModel>| #[trigger]
                        earley_value::is_part(g, gr, w, rule, 0, n.start, mid, xs) implies
                        earley_offered::are_offered(lefts, xs) by {
                        let ts = choose|ts: Seq<tree::TokenModel>| #[trigger]
                            earley_value::are_between(gr, w, n.start, mid, ts)
                                && derivation::yields_all(
                                g.rules,
                                g.nt,
                                w.pp,
                                g.rules[rule].expansion.take(0),
                                ts,
                                xs,
                            );
                        derivation::lemma_yields_len(
                            g.rules,
                            g.nt,
                            w.pp,
                            g.rules[rule].expansion.take(0),
                            ts,
                            xs,
                        );
                        assert(earley_offered::offers_all(lefts[0], xs));
                    }
                }
                lemma_right_told(g, gr, w, vis, id, j, lefts, m, outer);
            }
        },
        ForestRef::Node(l) => {
            assert(earley_chain::refers(w.forest.nodes[i].families[j], l));
            lemma_part_below(g, gr, w, vis, id, j, l, outer);
            lemma_inter_told(g, gr, w, vis, l, p.rule, p.right_pos, m, visiting);
            let (lefts, m1) = earley_tree::inter_expanded(w, l as int, m, visiting);
            if lefts.len() > 0 {
                lemma_right_told(g, gr, w, vis, id, j, lefts, m1, outer);
            } else {
                let lists = earley_tree::packed_expanded(w, p, m, visiting).0;
                assert forall|xs: Seq<tree_builder::SlotModel>| #[trigger]
                    suits(g, gr, w, i, p, xs) implies earley_offered::are_offered(lists, xs) by {
                    assert(earley_offered::are_offered(lefts, xs.drop_last()));
                }
            }
        },
        ForestRef::Tok(t) => {},
    }
}

/// The values of the last symbol of a family behind lists.
proof fn lemma_right_told(
    g: earley_chart::Context,
    gr: earley_shape::Ground,
    w: earley_rank::Walk,
    vis: Seq<usize>,
    id: usize,
    j: int,
    lefts: Seq<Seq<tree_builder::SlotModel>>,
    m: earley_rank::Found,
    outer: Seq<bool>,
)
    requires
        tells(g, gr, w, vis),
        vis.contains(id),
        is_kept(g, gr, w, m),
        all_above(g, w, outer, id as int),
        0 <= j < w.forest.nodes[id as int].families.len(),
        !(w.forest.nodes[id as int].families[j].right is Nothing),
        ({
            let n = w.forest.nodes[id as int];
            let p = n.families[j];
            parts_told(
                g,
                gr,
                w,
                p.rule as int,
                p.right_pos as int,
                n.start,
                earley_shape::mid_of(w.forest, n, p),
                lefts,
            )
        }),
    ensures
        ({
            let p = w.forest.nodes[id as int].families[j];
            let (lists, m1) = earley_tree::right_expanded(
                w,
                p,
                lefts,
                m,
                outer.update(id as int, true),
            );
            &&& is_kept(g, gr, w, m1)
            &&& lists_told(g, gr, w, id as int, p, lists)
        }),
    decreases bits::missing(outer.update(id as int, true)), 5nat, 1nat,
{
    let i = id as int;
    let visiting = outer.update(i, true);
    let n = w.forest.nodes[i];
    let p = n.families[j];
    let mid = earley_shape::mid_of(w.forest, n, p);
    let s = g.rules[p.rule as int].expansion[p.right_pos as int];
    assert(earley_value::is_node(gr, w, i));
    assert(earley_shape::is_family(g, gr, w.forest, w.forest.nodes[i], p));
    let lists = earley_tree::right_expanded(w, p, lefts, m, visiting).0;
    match p.right {
        ForestRef::Nothing => {},
        ForestRef::Tok(t) => {
            let tok = w.forest.tokens[t as int];
            let rights = seq![earley_tree::token_value(w, t as int)];
            assert forall|xs: Seq<tree_builder::SlotModel>| #[trigger]
                suits(g, gr, w, i, p, xs) implies earley_offered::are_offered(lists, xs) by {
                let front = xs.drop_last();
                assert(earley_offered::are_offered(lefts, front));
                let q = choose|q: int|
                    0 <= q < lefts.len() && #[trigger] earley_offered::offers_all(lefts[q], front);
                let ts = choose|ts: Seq<tree::TokenModel>| #[trigger]
                    earley_value::are_between(gr, w, mid, n.end, ts) && derivation::yields(
                        g.rules,
                        g.nt,
                        w.pp,
                        s,
                        ts,
                        xs.last(),
                    );
                let d = choose|d: nat| #[trigger]
                    derivation::yields_in(g.rules, g.nt, w.pp, s, ts, xs.last(), d);
                assert(ts[0] == tok);
                earley_offered::lemma_token_offers(tok);
                assert(earley_offered::offers(rights[0], xs.last()));
                earley_offered::lemma_combined_offer(lefts, rights, lefts.len(), xs, q);
            }
        },
        ForestRef::Node(c) => {
            lemma_rights_told(g, gr, w, vis, id, j, c, m, outer);
            let (rights, m1) = earley_tree::right_alternatives(w, p, c as int, m, visiting);
            assert forall|xs: Seq<tree_builder::SlotModel>| #[trigger]
                suits(g, gr, w, i, p, xs) implies earley_offered::are_offered(lists, xs) by {
                let front = xs.drop_last();
                assert(earley_offered::are_offered(lefts, front));
                let q = choose|q: int|
                    0 <= q < lefts.len() && #[trigger] earley_offered::offers_all(lefts[q], front);
                assert(earley_offered::is_offered(rights, xs.last()));
                earley_offered::lemma_combined_offer(lefts, rights, lefts.len(), xs, q);
            }
        },
    }
}

/// The values that the last symbol of a family can have offer every value of it.
proof fn lemma_rights_told(
    g: earley_chart::Context,
    gr: earley_shape::Ground,
    w: earley_rank::Walk,
    vis: Seq<usize>,
    id: usize,
    j: int,
    c: usize,
    m: earley_rank::Found,
    outer: Seq<bool>,
)
    requires
        tells(g, gr, w, vis),
        vis.contains(id),
        is_kept(g, gr, w, m),
        all_above(g, w, outer, id as int),
        0 <= j < w.forest.nodes[id as int].families.len(),
        w.forest.nodes[id as int].families[j].right == ForestRef::Node(c),
    ensures
        ({
            let n = w.forest.nodes[id as int];
            let p = n.families[j];
            let (rights, m1) = earley_tree::right_alternatives(
                w,
                p,
                c as int,
                m,
                outer.update(id as int, true),
            );
            &&& is_kept(g, gr, w, m1)
            &&& forall|x: tree_builder::SlotModel| #[trigger]
                earley_value::is_valued(
                    g,
                    gr,
                    w,
                    g.rules[p.rule as int].expansion[p.right_pos as int],
                    earley_shape::mid_of(w.forest, n, p),
                    n.end,
                    x,
                ) ==> earley_offered::is_offered(rights, x)
        }),
    decreases bits::missing(outer.update(id as int, true)), 5nat, 0nat,
{
    let i = id as int;
    let visiting = outer.update(i, true);
    let n = w.forest.nodes[i];
    let p = n.families[j];
    let ci = c as int;
    let s = g.rules[p.rule as int].expansion[p.right_pos as int];
    let mid = earley_shape::mid_of(w.forest, n, p);
    assert(earley_value::is_node(gr, w, i));
    assert(earley_shape::is_family(g, gr, w.forest, w.forest.nodes[i], p));
    assert(earley_chain::refers(w.forest.nodes[i].families[j], c));
    lemma_part_below(g, gr, w, vis, id, j, c, outer);
    let child = w.forest.nodes[ci];
    assert(child.key == NodeKey::Sym(s) && child.start == mid && child.end == n.end);
    earley_shown::lemma_rights_shown(g, gr, w, i, p, c, m, visiting);
    let (rights, m2) = earley_tree::right_alternatives(w, p, ci, m, visiting);
    let open = earley_tree::is_transparent(w, ci);
    if open || w.rules[p.rule as int].keep_all_tokens {
        let idle = earley_rank::idle(w.forest.nodes.len());
        let known = if open {
            earley_rank::single_known(w, ci, m.single, idle)
        } else {
            m.single
        };
        lemma_single_known(g, gr, w, ci, m.single, idle);
        let m0 = earley_rank::Found { single: known, ..m };
        assert(is_kept(g, gr, w, m0));
        if open && known[ci] == Some(true) {
            let blank = earley_tree::blank_buffer();
            lemma_rule_told(g, gr, w, vis, known, c, blank, m0, visiting);
            let (r, b, m1) = earley_tree::rule_appended(w, ci, blank, m0, visiting);
            assert forall|x: tree_builder::SlotModel| #[trigger]
                earley_value::is_valued(g, gr, w, s, mid, n.end, x) implies
                earley_offered::is_offered(rights, x) by {
                let v = lemma_spliced_told(g, gr, w, vis, c, s, blank, r, b, x);
                assert(v->Inline_0 =~= b.nodes + tree_builder::trailing_absents(
                    g.rules[r->0],
                ));
                assert(rights[0] == v);
                assert(earley_offered::offers(rights[0], x));
            }
        } else {
            lemma_derivations_told(g, gr, w, vis, c, m0, visiting);
        }
    } else {
        lemma_node_told(g, gr, w, vis, c, m, visiting);
        let (v, m1) = earley_tree::node_value(w, ci, m, visiting);
        assert forall|x: tree_builder::SlotModel| #[trigger]
            earley_value::is_valued(g, gr, w, s, mid, n.end, x) implies
            earley_offered::is_offered(rights, x) by {
            assert(earley_offered::offers(v->0, x));
            assert(rights[0] == v->0);
            assert(earley_offered::offers(rights[0], x));
        }
    }
}

/// The lists of children of a part of a rule offer every list of values of it.
proof fn lemma_inter_told(
    g: earley_chart::Context,
    gr: earley_shape::Ground,
    w: earley_rank::Walk,
    vis: Seq<usize>,
    id: usize,
    rule: usize,
    dot: usize,
    m: earley_rank::Found,
    visiting: Seq<bool>,
)
    requires
        tells(g, gr, w, vis),
        vis.contains(id),
        is_kept(g, gr, w, m),
        all_above(g, w, visiting, id as int),
        w.forest.nodes[id as int].key == NodeKey::Inter(rule, dot),
        0 < dot < g.rules[rule as int].expansion.len(),
    ensures
        ({
            let (lists, m1) = earley_tree::inter_expanded(w, id as int, m, visiting);
            &&& is_kept(g, gr, w, m1)
            &&& parts_told(
                g,
                gr,
                w,
                rule as int,
                dot as int,
                w.forest.nodes[id as int].start,
                w.forest.nodes[id as int].end,
                lists,
            )
        }),
    decreases bits::missing(visiting), 2nat, 0nat,
{
    let i = id as int;
    assert(earley_value::is_node(gr, w, i));
    lemma_not_visiting(g, gr, w, vis, id, visiting);
    let (order, prio) = earley_rank::tried(w, i, m.prio);
    let e = earley_rank::entered(m, prio);
    lemma_tried_all(w, i, m.prio);
    empty_values::lemma_visit(visiting, i);
    lemma_inter_families_told(g, gr, w, vis, id, order, order.len(), e, visiting);
    let (lists, m1) = earley_tree::families_expanded(
        w,
        i,
        order,
        order.len(),
        e,
        visiting.update(i, true),
    );
    let n = w.forest.nodes[i];
    assert forall|xs: Seq<tree_builder::SlotModel>| #[trigger]
        earley_value::is_part(
            g,
            gr,
            w,
            rule as int,
            dot as int,
            n.start,
            n.end,
            xs,
        ) implies earley_offered::are_offered(lists, xs) by {
        assert(n.key == earley_chart::key_at(g, rule, dot as int));
        let j = lemma_suit(g, gr, w, vis, id, rule as int, dot as int, xs);
        assert(order.contains(j as usize));
        let q = choose|q: int| 0 <= q < order.len() && order[q] == j as usize;
        assert(lists_told(
            g,
            gr,
            w,
            i,
            w.forest.nodes[i].families[order[q] as int],
            lists,
        ));
    }
}

proof fn lemma_inter_families_told(
    g: earley_chart::Context,
    gr: earley_shape::Ground,
    w: earley_rank::Walk,
    vis: Seq<usize>,
    id: usize,
    order: Seq<usize>,
    k: nat,
    m: earley_rank::Found,
    outer: Seq<bool>,
)
    requires
        tells(g, gr, w, vis),
        vis.contains(id),
        is_kept(g, gr, w, m),
        all_above(g, w, outer, id as int),
        k <= order.len(),
        forall|i: int|
            0 <= i < order.len() ==> #[trigger] order[i] < w.forest.nodes[id as int].families.len(),
    ensures
        ({
            let (lists, m1) = earley_tree::families_expanded(
                w,
                id as int,
                order,
                k,
                m,
                outer.update(id as int, true),
            );
            &&& is_kept(g, gr, w, m1)
            &&& forall|q: int|
                0 <= q < k ==> lists_told(
                    g,
                    gr,
                    w,
                    id as int,
                    w.forest.nodes[id as int].families[(#[trigger] order[q]) as int],
                    lists,
                )
        }),
    decreases bits::missing(outer.update(id as int, true)), 7nat, k,
{
    let i = id as int;
    let visiting = outer.update(i, true);
    if k > 0 {
        lemma_inter_families_told(g, gr, w, vis, id, order, (k - 1) as nat, m, outer);
        let (out, m1) = earley_tree::families_expanded(
            w,
            i,
            order,
            (k - 1) as nat,
            m,
            visiting,
        );
        let j = order[k - 1] as int;
        assert(order[k - 1] < w.forest.nodes[i].families.len());
        let p = w.forest.nodes[i].families[j];
        lemma_expanded_told(g, gr, w, vis, id, j, m1, outer);
        let (lists, m2) = earley_tree::packed_expanded(w, p, m1, visiting);
        let all = out + lists;
        assert forall|q: int| 0 <= q < k implies lists_told(
            g,
            gr,
            w,
            i,
            w.forest.nodes[i].families[(#[trigger] order[q]) as int],
            all,
        ) by {
            let z = w.forest.nodes[i].families[order[q] as int];
            assert forall|xs: Seq<tree_builder::SlotModel>| #[trigger]
                suits(g, gr, w, i, z, xs) implies earley_offered::are_offered(all, xs) by {
                if q < k - 1 {
                    assert(lists_told(g, gr, w, i, z, out));
                    assert(earley_offered::are_offered(out, xs));
                    let y = choose|y: int|
                        0 <= y < out.len() && #[trigger] earley_offered::offers_all(out[y], xs);
                    assert(all[y] == out[y]);
                    assert(earley_offered::offers_all(all[y], xs));
                } else {
                    assert(earley_offered::are_offered(lists, xs));
                    let y = choose|y: int|
                        0 <= y < lists.len() && #[trigger] earley_offered::offers_all(
                            lists[y],
                            xs,
                        );
                    assert(all[out.len() + y] == lists[y]);
                    assert(earley_offered::offers_all(all[out.len() + y], xs));
                }
            }
        }
    }
}

// ---------------------------------------------------------------------------
// Splices

/// Whether `c` is `b` with children of a rule that offer the given values.
pub open spec fn is_spread(
    g: earley_chart::Context,
    rule: int,
    b: earley_tree::Buffer,
    c: earley_tree::Buffer,
    xs: Seq<tree_builder::SlotModel>,
) -> bool {
    exists|vs: Seq<tree_builder::SlotModel>| #[trigger]
        earley_offered::offers_all(vs, xs) && earley_shown::slots_fit(false, g.rules[rule], vs)
            && c.nodes == b.nodes + tree_builder::kept_children(g.rules[rule], vs)
}

/// Whether what is appended for a node offers every list of values of it.
pub open spec fn is_laid(
    g: earley_chart::Context,
    gr: earley_shape::Ground,
    w: earley_rank::Walk,
    id: int,
    r: Option<int>,
    b: earley_tree::Buffer,
    c: earley_tree::Buffer,
) -> bool {
    let n = w.forest.nodes[id];
    forall|q: int, dot: int, xs: Seq<tree_builder::SlotModel>|
        n.key == earley_chart::key_at(g, q as usize, dot) && (dot > 0
            || g.rules[q].expansion.len() == 0) && #[trigger] earley_value::is_part(
            g,
            gr,
            w,
            q,
            dot,
            n.start,
            n.end,
            xs,
        ) ==> r == Some(q) && is_spread(g, q, b, c, xs)
}

/// The value of a transparent node whose children are appended offers every value
/// of it.
proof fn lemma_spliced_told(
    g: earley_chart::Context,
    gr: earley_shape::Ground,
    w: earley_rank::Walk,
    vis: Seq<usize>,
    id: usize,
    s: SymbolId,
    b: earley_tree::Buffer,
    r: Option<int>,
    c: earley_tree::Buffer,
    x: tree_builder::SlotModel,
) -> (v: tree_builder::SlotModel)
    requires
        tells(g, gr, w, vis),
        vis.contains(id),
        w.forest.nodes[id as int].key == NodeKey::Sym(s),
        earley_tree::is_transparent(w, id as int),
        is_laid(g, gr, w, id as int, r, b, c),
        earley_value::is_valued(
            g,
            gr,
            w,
            s,
            w.forest.nodes[id as int].start,
            w.forest.nodes[id as int].end,
            x,
        ),
    ensures
        earley_offered::offers(v, x),
        v is Inline,
        r is Some,
        c.nodes + tree_builder::trailing_absents(g.rules[r->0]) == b.nodes + v->Inline_0,
{
    let n = w.forest.nodes[id as int];
    lemma_symbol_node(g, gr, w, vis, id, s, x);
    let (q, xs) = lemma_valued_rule(g, gr, w, s, n.start, n.end, x);
    let len = g.rules[q].expansion.len() as int;
    assert(n.key == earley_chart::key_at(g, q as usize, len));
    assert(is_spread(g, q, b, c, xs));
    let vs = choose|vs: Seq<tree_builder::SlotModel>| #[trigger]
        earley_offered::offers_all(vs, xs) && earley_shown::slots_fit(false, g.rules[q], vs)
            && c.nodes == b.nodes + tree_builder::kept_children(g.rules[q], vs);
    let first = n.families[0];
    assert(earley_shape::is_family(g, gr, w.forest, n, first));
    assert(g.rules[first.rule as int].origin == g.rules[q].origin);
    assert(g.rules[q].transparent);
    assert(g.rules[q].tree_name != "_ambig"@);
    earley_offered::lemma_assembled_offers(g.rules[q], w.pp, vs, xs);
    let v = tree_builder::assembled(g.rules[q], w.pp, vs);
    assert(c.nodes + tree_builder::trailing_absents(g.rules[q]) =~= b.nodes + v->Inline_0);
    v
}

/// What is appended for a node with one derivation offers every list of values of
/// it.
proof fn lemma_rule_told(
    g: earley_chart::Context,
    gr: earley_shape::Ground,
    w: earley_rank::Walk,
    vis: Seq<usize>,
    known: Seq<Option<bool>>,
    id: usize,
    b: earley_tree::Buffer,
    m: earley_rank::Found,
    visiting: Seq<bool>,
)
    requires
        tells(g, gr, w, vis),
        vis.contains(id),
        singles_ok(w, known),
        known[id as int] == Some(true),
        is_kept(g, gr, w, m),
        all_above(g, w, visiting, id as int),
    ensures
        ({
            let (r, b1, m1) = earley_tree::rule_appended(w, id as int, b, m, visiting);
            &&& is_kept(g, gr, w, m1)
            &&& is_laid(g, gr, w, id as int, r, b, b1)
        }),
    decreases bits::missing(visiting), 2nat, 0nat,
{
    let i = id as int;
    assert(earley_value::is_node(gr, w, i));
    lemma_not_visiting(g, gr, w, vis, id, visiting);
    let (order, prio) = earley_rank::tried(w, i, m.prio);
    let e = earley_rank::entered(m, prio);
    lemma_tried_all(w, i, m.prio);
    empty_values::lemma_visit(visiting, i);
    let inner = visiting.update(i, true);
    let n = w.forest.nodes[i];
    lemma_single(w, known, i);
    let p = n.families[0];
    assert(order[0] < n.families.len());
    assert(p == n.families[order[0] as int]);
    lemma_packed_told(g, gr, w, vis, known, id, b, e, visiting);
    let (ok, b1, m1) = earley_tree::packed_appended(w, p, b, e, inner);
    let (r, b2, m2) = earley_tree::rule_appended(w, i, b, m, visiting);
    let tried = earley_tree::families_tried(w, i, order, 0, b, e, inner);
    if !ok {
        assert(earley_tree::families_tried(w, i, order, 1, b, m1, inner) == (
            None::<int>,
            b,
            m1,
        ));
    }
    assert forall|q: int, dot: int, xs: Seq<tree_builder::SlotModel>|
        n.key == earley_chart::key_at(g, q as usize, dot) && (dot > 0
            || g.rules[q].expansion.len() == 0) && #[trigger] earley_value::is_part(
            g,
            gr,
            w,
            q,
            dot,
            n.start,
            n.end,
            xs,
        ) implies r == Some(q) && is_spread(g, q, b, b2, xs) by {
        let j = lemma_suit(g, gr, w, vis, id, q, dot, xs);
        assert(j == 0);
        assert(suits(g, gr, w, i, p, xs));
    }
}

proof fn lemma_packed_told(
    g: earley_chart::Context,
    gr: earley_shape::Ground,
    w: earley_rank::Walk,
    vis: Seq<usize>,
    known: Seq<Option<bool>>,
    id: usize,
    b: earley_tree::Buffer,
    m: earley_rank::Found,
    outer: Seq<bool>,
)
    requires
        tells(g, gr, w, vis),
        vis.contains(id),
        singles_ok(w, known),
        known[id as int] == Some(true),
        is_kept(g, gr, w, m),
        all_above(g, w, outer, id as int),
    ensures
        ({
            let p = w.forest.nodes[id as int].families[0];
            let (ok, b1, m1) = earley_tree::packed_appended(
                w,
                p,
                b,
                m,
                outer.update(id as int, true),
            );
            &&& is_kept(g, gr, w, m1)
            &&& forall|xs: Seq<tree_builder::SlotModel>| #[trigger]
                suits(g, gr, w, id as int, p, xs) ==> ok && is_spread(
                    g,
                    p.rule as int,
                    b,
                    b1,
                    xs,
                )
        }),
    decreases bits::missing(outer.update(id as int, true)), 6nat, 0nat,
{
    let i = id as int;
    let visiting = outer.update(i, true);
    assert(earley_value::is_node(gr, w, i));
    let n = w.forest.nodes[i];
    lemma_single(w, known, i);
    let p = w.forest.nodes[i].families[0];
    let rule = p.rule as int;
    let mid = earley_shape::mid_of(w.forest, n, p);
    assert(earley_shape::is_family(g, gr, w.forest, w.forest.nodes[i], p));
    let none = Seq::<tree_builder::SlotModel>::empty();
    assert(b.nodes + tree_builder::kept_children(g.rules[rule], none) =~= b.nodes);
    match p.left {
        ForestRef::Nothing => {
            if p.right is Nothing {
                assert forall|xs: Seq<tree_builder::SlotModel>| #[trigger]
                    suits(g, gr, w, i, p, xs) implies is_spread(g, rule, b, b, xs) by {
                    assert(earley_offered::offers_all(none, xs));
                }
            } else {
                assert forall|xs: Seq<tree_builder::SlotModel>| #[trigger]
                    earley_value::is_part(g, gr, w, rule, 0, n.start, mid, xs) implies is_spread(
                    g,
                    rule,
                    b,
                    b,
                    xs,
                ) by {
                    let ts = choose|ts: Seq<tree::TokenModel>| #[trigger]
                        earley_value::are_between(gr, w, n.start, mid, ts)
                            && derivation::yields_all(
                            g.rules,
                            g.nt,
                            w.pp,
                            g.rules[rule].expansion.take(0),
                            ts,
                            xs,
                        );
                    derivation::lemma_yields_len(
                        g.rules,
                        g.nt,
                        w.pp,
                        g.rules[rule].expansion.take(0),
                        ts,
                        xs,
                    );
                    assert(earley_offered::offers_all(none, xs));
                }
                lemma_right_laid(g, gr, w, vis, known, id, b, b, m, outer);
            }
        },
        ForestRef::Node(l) => {
            assert(earley_chain::refers(w.forest.nodes[i].families[0], l));
            lemma_part_below(g, gr, w, vis, id, 0, l, outer);
            assert(earley_rank::ref_single(known, p.left));
            lemma_rule_told(g, gr, w, vis, known, l, b, m, visiting);
            let (r, b1, m1) = earley_tree::rule_appended(w, l as int, b, m, visiting);
            let c = w.forest.nodes[l as int];
            assert forall|xs: Seq<tree_builder::SlotModel>| #[trigger]
                earley_value::is_part(
                    g,
                    gr,
                    w,
                    rule,
                    p.right_pos as int,
                    n.start,
                    mid,
                    xs,
                ) implies r is Some && is_spread(g, rule, b, b1, xs) by {
                assert(c.key == earley_chart::key_at(g, p.rule, p.right_pos as int));
            }
            if r is Some {
                lemma_right_laid(g, gr, w, vis, known, id, b, b1, m1, outer);
            } else {
                let ok = earley_tree::packed_appended(w, p, b, m, visiting).0;
                assert forall|xs: Seq<tree_builder::SlotModel>| #[trigger]
                    suits(g, gr, w, i, p, xs) implies false by {
                    assert(earley_value::is_part(
                        g,
                        gr,
                        w,
                        rule,
                        p.right_pos as int,
                        n.start,
                        mid,
                        xs.drop_last(),
                    ));
                }
            }
        },
        ForestRef::Tok(t) => {},
    }
}

/// The value of the last symbol of a family behind children.
proof fn lemma_spread_push(
    g: earley_chart::Context,
    w: earley_rank::Walk,
    p: Packed,
    first: earley_tree::Buffer,
    b: earley_tree::Buffer,
    c: earley_tree::Buffer,
    v: tree_builder::SlotModel,
    xs: Seq<tree_builder::SlotModel>,
)
    requires
        w.rules == g.rules,
        xs.len() == p.right_pos + 1,
        is_spread(g, p.rule as int, first, b, xs.drop_last()),
        earley_offered::offers(v, xs.last()),
        earley_shown::slot_fits(false, g.rules[p.rule as int], p.right_pos as int, v),
        c.nodes == earley_tree::with_value(
            w,
            earley_tree::with_gap(w, b, p.rule as int, p.right_pos as int),
            p.rule as int,
            p.right_pos as int,
            v,
        ).nodes,
    ensures
        is_spread(g, p.rule as int, first, c, xs),
{
    let rule = g.rules[p.rule as int];
    let front = xs.drop_last();
    let vs = choose|vs: Seq<tree_builder::SlotModel>| #[trigger]
        earley_offered::offers_all(vs, front) && earley_shown::slots_fit(false, rule, vs)
            && b.nodes == first.nodes + tree_builder::kept_children(rule, vs);
    let all = vs.push(v);
    assert(all.drop_last() =~= vs);
    assert(c.nodes =~= first.nodes + tree_builder::kept_children(rule, all));
    assert forall|i: int| 0 <= i < all.len() implies #[trigger] earley_offered::offers(
        all[i],
        xs[i],
    ) by {
        if i < vs.len() {
            assert(earley_offered::offers(vs[i], front[i]));
        }
    }
    assert forall|i: int| 0 <= i < all.len() implies earley_shown::slot_fits(
        false,
        rule,
        i,
        #[trigger] all[i],
    ) by {
        if i < vs.len() {
            assert(earley_shown::slot_fits(false, rule, i, vs[i]));
        }
    }
    assert(earley_offered::offers_all(all, xs));
}

proof fn lemma_right_laid(
    g: earley_chart::Context,
    gr: earley_shape::Ground,
    w: earley_rank::Walk,
    vis: Seq<usize>,
    known: Seq<Option<bool>>,
    id: usize,
    first: earley_tree::Buffer,
    b: earley_tree::Buffer,
    m: earley_rank::Found,
    outer: Seq<bool>,
)
    requires
        tells(g, gr, w, vis),
        vis.contains(id),
        singles_ok(w, known),
        known[id as int] == Some(true),
        is_kept(g, gr, w, m),
        all_above(g, w, outer, id as int),
        !(w.forest.nodes[id as int].families[0].right is Nothing),
        ({
            let n = w.forest.nodes[id as int];
            let p = n.families[0];
            forall|xs: Seq<tree_builder::SlotModel>| #[trigger]
                earley_value::is_part(
                    g,
                    gr,
                    w,
                    p.rule as int,
                    p.right_pos as int,
                    n.start,
                    earley_shape::mid_of(w.forest, n, p),
                    xs,
                ) ==> is_spread(g, p.rule as int, first, b, xs)
        }),
    ensures
        ({
            let p = w.forest.nodes[id as int].families[0];
            let (ok, b1, m1) = earley_tree::right_appended(
                w,
                p,
                b,
                m,
                outer.update(id as int, true),
            );
            &&& is_kept(g, gr, w, m1)
            &&& forall|xs: Seq<tree_builder::SlotModel>| #[trigger]
                suits(g, gr, w, id as int, p, xs) ==> ok && is_spread(
                    g,
                    p.rule as int,
                    first,
                    b1,
                    xs,
                )
        }),
    decreases bits::missing(outer.update(id as int, true)), 5nat, 0nat,
{
    let i = id as int;
    let visiting = outer.update(i, true);
    assert(earley_value::is_node(gr, w, i));
    let n = w.forest.nodes[i];
    lemma_single(w, known, i);
    let p = w.forest.nodes[i].families[0];
    let rule = p.rule as int;
    let pos = p.right_pos as int;
    let mid = earley_shape::mid_of(w.forest, n, p);
    let s = g.rules[rule].expansion[pos];
    assert(earley_shape::is_family(g, gr, w.forest, w.forest.nodes[i], p));
    let gap = earley_tree::with_gap(w, b, rule, pos);
    let (ok, b1, m1) = earley_tree::right_appended(w, p, b, m, visiting);
    match p.right {
        ForestRef::Nothing => {},
        ForestRef::Tok(t) => {
            let tok = w.forest.tokens[t as int];
            let v = earley_tree::token_value(w, t as int);
            assert forall|xs: Seq<tree_builder::SlotModel>| #[trigger]
                suits(g, gr, w, i, p, xs) implies ok && is_spread(g, rule, first, b1, xs) by {
                let ts = choose|ts: Seq<tree::TokenModel>| #[trigger]
                    earley_value::are_between(gr, w, mid, n.end, ts) && derivation::yields(
                        g.rules,
                        g.nt,
                        w.pp,
                        s,
                        ts,
                        xs.last(),
                    );
                let d = choose|d: nat| #[trigger]
                    derivation::yields_in(g.rules, g.nt, w.pp, s, ts, xs.last(), d);
                assert(ts[0] == tok);
                earley_offered::lemma_token_offers(tok);
                lemma_spread_push(g, w, p, first, b, b1, v, xs);
            }
        },
        ForestRef::Node(c) => {
            let ci = c as int;
            assert(earley_chain::refers(w.forest.nodes[i].families[0], c));
            lemma_part_below(g, gr, w, vis, id, 0, c, outer);
            assert(earley_rank::ref_single(known, p.right));
            let child = w.forest.nodes[ci];
            assert(child.key == NodeKey::Sym(s) && child.start == mid && child.end == n.end);
            lemma_single(w, known, ci);
            let z = child.families[0];
            assert(earley_shape::is_family(g, gr, w.forest, child, z));
            assert(g.rules[z.rule as int].origin.ix() >= g.nt);
            assert(g.rules[rule].expansion[pos].ix() >= g.nt);
            if earley_tree::is_transparent(w, ci) {
                lemma_rule_told(g, gr, w, vis, known, c, gap, m, visiting);
                let (r, b2, m2) = earley_tree::rule_appended(w, ci, gap, m, visiting);
                assert forall|xs: Seq<tree_builder::SlotModel>| #[trigger]
                    suits(g, gr, w, i, p, xs) implies ok && is_spread(g, rule, first, b1, xs) by {
                    let v = lemma_spliced_told(g, gr, w, vis, c, s, gap, r, b2, xs.last());
                    assert(b1.nodes =~= gap.nodes + v->Inline_0);
                    lemma_spread_push(g, w, p, first, b, b1, v, xs);
                }
            } else {
                lemma_node_told(g, gr, w, vis, c, m, visiting);
                let (v, m2) = earley_tree::node_value(w, ci, m, visiting);
                assert forall|xs: Seq<tree_builder::SlotModel>| #[trigger]
                    suits(g, gr, w, i, p, xs) implies ok && is_spread(g, rule, first, b1, xs) by {
                    assert(earley_offered::offers(v->0, xs.last()));
                    lemma_spread_push(g, w, p, first, b, b1, v->0, xs);
                }
            }
        },
    }
}

/// The value of the root offers every value of it.
pub proof fn lemma_root_told(
    g: earley_chart::Context,
    gr: earley_shape::Ground,
    w: earley_rank::Walk,
    vis: Seq<usize>,
    root: usize,
    s: SymbolId,
    x: tree_builder::SlotModel,
)
    requires
        tells(g, gr, w, vis),
        vis.contains(root),
        w.forest.nodes[root as int].key == NodeKey::Sym(s),
        derivation::is_solid(g.rules, s),
        earley_value::is_valued(
            g,
            gr,
            w,
            s,
            w.forest.nodes[root as int].start,
            w.forest.nodes[root as int].end,
            x,
        ),
    ensures
        earley_tree::transformed(w, root as int) matches Some(v) && earley_offered::offers(v, x)
            && earley_shown::is_plain(v),
{
    let n = w.forest.nodes.len();
    let m = earley_tree::nothing_found(n);
    let free = earley_rank::idle(n);
    assert(earley_value::is_node(gr, w, root as int));
    assert(!earley_tree::is_transparent(w, root as int)) by {
        if w.forest.nodes[root as int].families.len() > 0 {
            let p = w.forest.nodes[root as int].families[0];
            assert(earley_shape::is_family(g, gr, w.forest, w.forest.nodes[root as int], p));
            assert(g.rules[p.rule as int].origin == s);
        }
    }
    assert(singles_ok(w, m.single)) by {
        reveal(singles_ok);
    }
    lemma_node_told(g, gr, w, vis, root, m, free);
    earley_shown::lemma_root_shown(g, gr, w, root as int, s);
}

} // verus!
