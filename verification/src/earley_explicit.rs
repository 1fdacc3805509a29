//! All derivations side by side: a root that can be built of visited nodes has a
//! value also where all its derivations are shown. A node is left out only where
//! it is met again while it is being built, and then what was found of the nodes
//! between is not kept.

use vstd::prelude::*;
use crate::bits;
use crate::earley_build;
use crate::earley_forest;
use crate::earley_forest::{ForestRef, Packed};
use crate::earley_good;
use crate::earley_rank;
use crate::earley_tree;
use crate::empty_values;
use crate::tree;
use crate::tree_builder;

verus! {

// ---------------------------------------------------------------------------
// Lists of values

proof fn lemma_alternatives_added(
    ds: Seq<tree_builder::SlotModel>,
    ns: Seq<tree::Node>,
    k: nat,
)
    ensures
        k > 0 || ds.len() > 0 ==> earley_tree::alternatives_added(ds, ns, k).len() > 0,
    decreases k,
{
    if k > 0 {
        lemma_alternatives_added(ds, ns, (k - 1) as nat);
    }
}

/// The outcome of a derivation leaves at least one value.
proof fn lemma_outcome_added(ds: Seq<tree_builder::SlotModel>, v: tree_builder::SlotModel)
    ensures
        earley_tree::outcome_added(ds, v).len() > 0,
{
    if let tree_builder::SlotModel::Value(tree::Node::Tree { data, children, meta }) = v {
        lemma_alternatives_added(ds, children, children.len());
    }
}

proof fn lemma_outcomes_added(
    w: earley_rank::Walk,
    rule: int,
    ds: Seq<tree_builder::SlotModel>,
    lists: Seq<Seq<tree_builder::SlotModel>>,
    k: nat,
)
    ensures
        k > 0 || ds.len() > 0 ==> earley_tree::outcomes_added(w, rule, ds, lists, k).len() > 0,
{
    if k > 0 {
        lemma_outcome_added(
            earley_tree::outcomes_added(w, rule, ds, lists, (k - 1) as nat),
            tree_builder::assembled(w.rules[rule], w.pp, lists[k - 1]),
        );
    }
}

proof fn lemma_combined(
    lefts: Seq<Seq<tree_builder::SlotModel>>,
    rights: Seq<tree_builder::SlotModel>,
    k: nat,
)
    ensures
        k > 0 && rights.len() > 0 ==> earley_tree::combined(lefts, rights, k).len() > 0,
{
}

/// What is left of numbers without one of them.
proof fn lemma_without(s: Seq<usize>, x: usize, y: usize)
    requires
        s.contains(y),
        x != y,
    ensures
        earley_rank::without(s, x).contains(y),
    decreases s.len(),
{
    let i = choose|i: int| 0 <= i < s.len() && s[i] == y;
    let rest = earley_rank::without(s.drop_last(), x);
    if i < s.len() - 1 {
        assert(s.drop_last()[i] == y);
        lemma_without(s.drop_last(), x, y);
        let j = choose|j: int| 0 <= j < rest.len() && rest[j] == y;
        assert(rest.push(s.last())[j] == y);
    } else {
        assert(rest.push(s.last())[rest.len() as int] == y);
    }
}

// ---------------------------------------------------------------------------
// The walk

/// Whether the families of a forest refer to its nodes.
pub open spec fn links_fit(f: earley_forest::ForestModel) -> bool {
    forall|i: int, k: int|
        0 <= i < f.nodes.len() && 0 <= k < f.nodes[i].families.len() ==> parts_fit(
            f,
            #[trigger] f.nodes[i].families[k],
        )
}

/// Whether the parts of a family are nodes of the forest.
pub open spec fn parts_fit(f: earley_forest::ForestModel, p: Packed) -> bool {
    &&& p.left matches ForestRef::Node(l) ==> l < f.nodes.len()
    &&& p.right matches ForestRef::Node(c) ==> c < f.nodes.len()
}

/// Whether a walk shows all derivations of a forest.
pub open spec fn shows_all(w: earley_rank::Walk, k: earley_good::Known) -> bool {
    &&& !w.resolve
    &&& earley_build::is_buildable(w.forest, k)
    &&& links_fit(w.forest)
}

/// Whether no visited node was found without derivations.
pub open spec fn none_empty(
    w: earley_rank::Walk,
    k: earley_good::Known,
    m: earley_rank::Found,
) -> bool {
    &&& m.values.len() == w.forest.nodes.len()
    &&& m.derivs.len() == w.forest.nodes.len()
    &&& forall|id: int|
        0 <= id < m.derivs.len() && k.visited.contains(id as usize) ==> (
        #[trigger] m.derivs[id] matches Some(ds) ==> ds.len() > 0)
}

/// Whether `y` was met again while it is being built, and can be built in `d`
/// steps.
pub open spec fn is_excuse(
    w: earley_rank::Walk,
    k: earley_good::Known,
    visiting: Seq<bool>,
    hits: Seq<usize>,
    d: nat,
    y: usize,
) -> bool {
    &&& hits.contains(y)
    &&& y < visiting.len()
    &&& visiting[y as int]
    &&& earley_good::good(w.forest, k, y as int, d)
}

/// Whether there is such a node.
pub open spec fn is_excused(
    w: earley_rank::Walk,
    k: earley_good::Known,
    visiting: Seq<bool>,
    hits: Seq<usize>,
    d: nat,
) -> bool {
    exists|y: usize| #[trigger] is_excuse(w, k, visiting, hits, d, y)
}

/// Whether the nodes met again stay noted.
pub open spec fn keeps(m: earley_rank::Found, n: earley_rank::Found) -> bool {
    forall|y: usize| #[trigger] m.hits.contains(y) ==> n.hits.contains(y)
}

/// Whether a visited node that can be built in some steps was built, unless a
/// node that can be built in as many was met again.
pub open spec fn is_served(
    w: earley_rank::Walk,
    k: earley_good::Known,
    visiting: Seq<bool>,
    id: int,
    found: bool,
    hits: Seq<usize>,
) -> bool {
    k.visited.contains(id as usize) ==> forall|d: nat| #[trigger]
        earley_good::good(w.forest, k, id, d) ==> found || is_excused(w, k, visiting, hits, d)
}

/// Whether the parts of a family are visited, and can be built in `e` steps.
pub open spec fn is_led(
    w: earley_rank::Walk,
    k: earley_good::Known,
    p: Packed,
    e: nat,
) -> bool {
    &&& p.left matches ForestRef::Node(l) ==> k.visited.contains(l) && earley_good::good(
        w.forest,
        k,
        l as int,
        e,
    )
    &&& p.right matches ForestRef::Node(c) ==> k.visited.contains(c) && earley_good::good(
        w.forest,
        k,
        c as int,
        e,
    )
}

/// Whether a family whose parts can be built in some steps was built, unless a
/// node that can be built in as many was met again.
pub open spec fn is_made(
    w: earley_rank::Walk,
    k: earley_good::Known,
    visiting: Seq<bool>,
    p: Packed,
    found: bool,
    hits: Seq<usize>,
) -> bool {
    forall|e: nat| #[trigger]
        is_led(w, k, p, e) ==> found || is_excused(w, k, visiting, hits, e)
}

/// Whether one of the families `order[i..n]` of a node that could be built was, in
/// the same sense.
pub open spec fn is_one_made(
    w: earley_rank::Walk,
    k: earley_good::Known,
    visiting: Seq<bool>,
    id: int,
    order: Seq<usize>,
    i: int,
    n: int,
    found: bool,
    hits: Seq<usize>,
) -> bool {
    forall|q: int, e: nat|
        i <= q < n && #[trigger] is_led(
            w,
            k,
            w.forest.nodes[id].families[order[q] as int],
            e,
        ) ==> found || is_excused(w, k, visiting, hits, e)
}

proof fn lemma_excused_more(
    w: earley_rank::Walk,
    k: earley_good::Known,
    visiting: Seq<bool>,
    m: earley_rank::Found,
    n: earley_rank::Found,
    d: nat,
)
    requires
        keeps(m, n),
        is_excused(w, k, visiting, m.hits, d),
    ensures
        is_excused(w, k, visiting, n.hits, d),
{
    let y = choose|y: usize| #[trigger] is_excuse(w, k, visiting, m.hits, d, y);
    assert(is_excuse(w, k, visiting, n.hits, d, y));
}

/// The fewest steps in which a node can be built.
proof fn lemma_fewest(
    f: earley_forest::ForestModel,
    k: earley_good::Known,
    x: int,
    d: nat,
) -> (e: nat)
    requires
        earley_good::good(f, k, x, d),
    ensures
        e <= d,
        earley_good::good(f, k, x, e),
        e > 0 ==> !earley_good::good(f, k, x, (e - 1) as nat),
    decreases d,
{
    if d > 0 && earley_good::good(f, k, x, (d - 1) as nat) {
        lemma_fewest(f, k, x, (d - 1) as nat)
    } else {
        d
    }
}

/// Where the families of a node were gone through while it was being built, the
/// node is served.
proof fn lemma_served(
    w: earley_rank::Walk,
    k: earley_good::Known,
    visiting: Seq<bool>,
    id: int,
    order: Seq<usize>,
    prio: Seq<Option<i64>>,
    found: bool,
    inner: Seq<usize>,
    before: Seq<usize>,
)
    requires
        shows_all(w, k),
        visiting.len() == w.forest.nodes.len(),
        0 <= id < visiting.len(),
        !visiting[id],
        order == earley_rank::tried(w, id, prio).0,
        is_one_made(
            w,
            k,
            visiting.update(id, true),
            id,
            order,
            0,
            order.len() as int,
            found,
            inner,
        ),
    ensures
        is_served(
            w,
            k,
            visiting,
            id,
            found,
            before + earley_rank::without(inner, id as usize),
        ),
        k.visited.contains(id as usize) && !found ==> earley_rank::without(
            inner,
            id as usize,
        ).len() > 0,
{
    let f = w.forest;
    let rest = earley_rank::without(inner, id as usize);
    let hits = before + rest;
    let now = visiting.update(id, true);
    if k.visited.contains(id as usize) && !found {
        assert(earley_good::is_good(f, k, id as usize as int));
        assert forall|d: nat| #[trigger] earley_good::good(f, k, id, d) implies is_excused(
            w,
            k,
            visiting,
            hits,
            d,
        ) && rest.len() > 0 by {
            let b = lemma_fewest(f, k, id, d);
            let fs = f.nodes[id].families;
            assert(f.nodes[id].paths.len() == 0);
            let e = (b - 1) as nat;
            let j = choose|j: int|
                0 <= j < fs.len() && earley_good::led(f, k, id, (#[trigger] fs[j]).left, e)
                    && earley_good::led(f, k, id, fs[j].right, e);
            let vs = earley_rank::family_priorities(w, id, prio, fs.len()).0;
            earley_build::lemma_order_has(w, fs, vs, fs.len(), j as usize);
            let q = choose|q: int| 0 <= q < order.len() && order[q] == j as usize;
            assert(is_led(w, k, w.forest.nodes[id].families[order[q] as int], e));
            let y = choose|y: usize| #[trigger] is_excuse(w, k, now, inner, e, y);
            assert(y != id);
            assert(visiting[y as int]);
            lemma_without(inner, id as usize, y);
            let i = choose|i: int| 0 <= i < rest.len() && rest[i] == y;
            assert(hits[before.len() + i] == y);
            earley_good::lemma_good_more(f, k, y as int, e, d);
            assert(is_excuse(w, k, visiting, hits, d, y));
        }
        let d = choose|d: nat| #[trigger] earley_good::good(f, k, id, d);
        assert(rest.len() > 0);
    }
}

/// A node met again while it is being built excuses itself.
proof fn lemma_met(
    w: earley_rank::Walk,
    k: earley_good::Known,
    visiting: Seq<bool>,
    id: int,
    m: earley_rank::Found,
)
    requires
        0 <= id < visiting.len() <= usize::MAX,
        visiting[id],
    ensures
        is_served(w, k, visiting, id, false, earley_rank::met_again(m, id).hits),
        keeps(m, earley_rank::met_again(m, id)),
{
    let n = earley_rank::met_again(m, id);
    assert(n.hits[m.hits.len() as int] == id as usize);
    assert forall|d: nat| #[trigger] earley_good::good(w.forest, k, id, d) implies is_excused(
        w,
        k,
        visiting,
        n.hits,
        d,
    ) by {
        assert(is_excuse(w, k, visiting, n.hits, d, id as usize));
    }
    assert forall|y: usize| #[trigger] m.hits.contains(y) implies n.hits.contains(y) by {
        let i = choose|i: int| 0 <= i < m.hits.len() && m.hits[i] == y;
        assert(n.hits[i] == y);
    }
}

/// What was noted before stays noted once a node is built.
proof fn lemma_left(m: earley_rank::Found, n: earley_rank::Found, id: int)
    ensures
        keeps(m, earley_rank::left(n, id, m.hits)),
{
    let all = earley_rank::left(n, id, m.hits).hits;
    assert forall|y: usize| #[trigger] m.hits.contains(y) implies all.contains(y) by {
        let i = choose|i: int| 0 <= i < m.hits.len() && m.hits[i] == y;
        assert(all[i] == y);
    }
}

proof fn lemma_value(
    w: earley_rank::Walk,
    k: earley_good::Known,
    id: int,
    m: earley_rank::Found,
    visiting: Seq<bool>,
)
    requires
        shows_all(w, k),
        visiting.len() == w.forest.nodes.len(),
        0 <= id < w.forest.nodes.len(),
        none_empty(w, k, m),
    ensures
        ({
            let (v, m1) = earley_tree::node_value(w, id, m, visiting);
            &&& none_empty(w, k, m1)
            &&& keeps(m, m1)
            &&& is_served(w, k, visiting, id, v is Some, m1.hits)
        }),
    decreases bits::missing(visiting), 3nat, 0nat,
{
    if !(m.values[id] is Some) {
        lemma_derivations(w, k, id, m, visiting);
    }
}

proof fn lemma_rule(
    w: earley_rank::Walk,
    k: earley_good::Known,
    id: int,
    b: earley_tree::Buffer,
    m: earley_rank::Found,
    visiting: Seq<bool>,
)
    requires
        shows_all(w, k),
        visiting.len() == w.forest.nodes.len(),
        0 <= id < w.forest.nodes.len(),
        none_empty(w, k, m),
    ensures
        ({
            let (r, b1, m1) = earley_tree::rule_appended(w, id, b, m, visiting);
            &&& none_empty(w, k, m1)
            &&& keeps(m, m1)
            &&& is_served(w, k, visiting, id, r is Some, m1.hits)
        }),
    decreases bits::missing(visiting), 2nat, 0nat,
{
    if visiting[id] {
        lemma_met(w, k, visiting, id, m);
    } else {
        let (order, prio) = earley_rank::tried(w, id, m.prio);
        let m0 = earley_rank::entered(m, prio);
        let inner = visiting.update(id, true);
        lemma_order(w, id, m.prio);
        empty_values::lemma_visit(visiting, id);
        lemma_families(w, k, id, order, 0, b, m0, inner);
        let (r, _b1, m1) = earley_tree::families_tried(w, id, order, 0, b, m0, inner);
        lemma_served(w, k, visiting, id, order, m.prio, r is Some, m1.hits, m.hits);
        lemma_left(m, m1, id);
    }
}

/// The families tried exist.
proof fn lemma_order(w: earley_rank::Walk, id: int, prio: Seq<Option<i64>>)
    requires
        0 <= id < w.forest.nodes.len(),
        w.forest.nodes[id].families.len() <= usize::MAX,
    ensures
        forall|i: int|
            0 <= i < earley_rank::tried(w, id, prio).0.len() ==> #[trigger] earley_rank::tried(
                w,
                id,
                prio,
            ).0[i] < w.forest.nodes[id].families.len(),
{
    let fs = w.forest.nodes[id].families;
    let vs = earley_rank::family_priorities(w, id, prio, fs.len()).0;
    earley_rank::lemma_in_order(w, fs, vs, fs.len());
}

proof fn lemma_families(
    w: earley_rank::Walk,
    k: earley_good::Known,
    id: int,
    order: Seq<usize>,
    i: nat,
    b: earley_tree::Buffer,
    m: earley_rank::Found,
    visiting: Seq<bool>,
)
    requires
        shows_all(w, k),
        visiting.len() == w.forest.nodes.len(),
        0 <= id < w.forest.nodes.len(),
        none_empty(w, k, m),
        forall|j: int|
            0 <= j < order.len() ==> #[trigger] order[j] < w.forest.nodes[id].families.len(),
    ensures
        ({
            let (r, b1, m1) = earley_tree::families_tried(w, id, order, i, b, m, visiting);
            &&& none_empty(w, k, m1)
            &&& keeps(m, m1)
            &&& is_one_made(
                w,
                k,
                visiting,
                id,
                order,
                i as int,
                order.len() as int,
                r is Some,
                m1.hits,
            )
        }),
    decreases bits::missing(visiting), 7nat, order.len() - i,
{
    if i < order.len() {
        let p = w.forest.nodes[id].families[order[i as int] as int];
        assert(parts_fit(w.forest, p));
        lemma_packed(w, k, p, b, m, visiting);
        let (ok, _b1, m1) = earley_tree::packed_appended(w, p, b, m, visiting);
        if !ok {
            lemma_families(w, k, id, order, i + 1, b, m1, visiting);
            let (r, _b2, m2) = earley_tree::families_tried(w, id, order, i + 1, b, m1, visiting);
            assert forall|q: int, e: nat|
                i <= q < order.len() && #[trigger] is_led(
                    w,
                    k,
                    w.forest.nodes[id].families[order[q] as int],
                    e,
                ) implies r is Some || is_excused(w, k, visiting, m2.hits, e) by {
                if q == i {
                    lemma_excused_more(w, k, visiting, m1, m2, e);
                }
            }
        }
    }
}

proof fn lemma_packed(
    w: earley_rank::Walk,
    k: earley_good::Known,
    p: Packed,
    b: earley_tree::Buffer,
    m: earley_rank::Found,
    visiting: Seq<bool>,
)
    requires
        shows_all(w, k),
        visiting.len() == w.forest.nodes.len(),
        parts_fit(w.forest, p),
        none_empty(w, k, m),
    ensures
        ({
            let (ok, b1, m1) = earley_tree::packed_appended(w, p, b, m, visiting);
            &&& none_empty(w, k, m1)
            &&& keeps(m, m1)
            &&& is_made(w, k, visiting, p, ok, m1.hits)
        }),
    decreases bits::missing(visiting), 6nat, 0nat,
{
    match p.left {
        ForestRef::Nothing => {
            lemma_right(w, k, p, b, m, visiting);
        },
        ForestRef::Node(l) => {
            lemma_rule(w, k, l as int, b, m, visiting);
            let (r, b1, m1) = earley_tree::rule_appended(w, l as int, b, m, visiting);
            if r is Some {
                lemma_right(w, k, p, b1, m1, visiting);
            } else {
                assert forall|e: nat| #[trigger] is_led(w, k, p, e) implies is_excused(
                    w,
                    k,
                    visiting,
                    m1.hits,
                    e,
                ) by {
                    assert(earley_good::good(w.forest, k, l as int, e));
                }
            }
        },
        ForestRef::Tok(t) => {
            let b1 = earley_tree::Buffer {
                nodes: b.nodes.push(tree::Node::Token(w.forest.tokens[t as int])),
                span: earley_tree::span_with(
                    w,
                    b.span,
                    earley_tree::token_value(w, t as int),
                ),
            };
            lemma_right(w, k, p, b1, m, visiting);
        },
    }
}

proof fn lemma_right(
    w: earley_rank::Walk,
    k: earley_good::Known,
    p: Packed,
    b: earley_tree::Buffer,
    m: earley_rank::Found,
    visiting: Seq<bool>,
)
    requires
        shows_all(w, k),
        visiting.len() == w.forest.nodes.len(),
        parts_fit(w.forest, p),
        none_empty(w, k, m),
    ensures
        ({
            let (ok, b1, m1) = earley_tree::right_appended(w, p, b, m, visiting);
            &&& none_empty(w, k, m1)
            &&& keeps(m, m1)
            &&& is_made(w, k, visiting, p, ok, m1.hits)
        }),
    decreases bits::missing(visiting), 5nat, 0nat,
{
    if let ForestRef::Node(c) = p.right {
        let gap = earley_tree::with_gap(w, b, p.rule as int, p.right_pos as int);
        let (ok, _b1, m1) = earley_tree::right_appended(w, p, b, m, visiting);
        if earley_tree::is_transparent(w, c as int) {
            lemma_rule(w, k, c as int, gap, m, visiting);
        } else {
            lemma_value(w, k, c as int, m, visiting);
        }
        assert(is_served(w, k, visiting, c as int, ok, m1.hits));
        assert forall|e: nat| #[trigger] is_led(w, k, p, e) implies ok || is_excused(
            w,
            k,
            visiting,
            m1.hits,
            e,
        ) by {
            assert(earley_good::good(w.forest, k, c as int, e));
        }
    }
}

proof fn lemma_derivations(
    w: earley_rank::Walk,
    k: earley_good::Known,
    id: int,
    m: earley_rank::Found,
    visiting: Seq<bool>,
)
    requires
        shows_all(w, k),
        visiting.len() == w.forest.nodes.len(),
        0 <= id < w.forest.nodes.len(),
        none_empty(w, k, m),
    ensures
        ({
            let (ds, m1) = earley_tree::derivations(w, id, m, visiting);
            &&& none_empty(w, k, m1)
            &&& keeps(m, m1)
            &&& is_served(w, k, visiting, id, ds.len() > 0, m1.hits)
        }),
    decreases bits::missing(visiting), 2nat, 0nat,
{
    if m.derivs[id] is Some {
    } else if visiting[id] {
        lemma_met(w, k, visiting, id, m);
    } else {
        let (order, prio) = earley_rank::tried(w, id, m.prio);
        let m0 = earley_rank::entered(m, prio);
        let inner = visiting.update(id, true);
        lemma_order(w, id, m.prio);
        empty_values::lemma_visit(visiting, id);
        lemma_all_families(w, k, id, order, order.len(), m0, inner);
        let (ds, m1) = earley_tree::families_derived(w, id, order, order.len(), m0, inner);
        let (_ds, m2) = earley_tree::derivations(w, id, m, visiting);
        lemma_served(w, k, visiting, id, order, m.prio, ds.len() > 0, m1.hits, m.hits);
        let counted = earley_tree::children_counted(
            m1,
            earley_tree::values_size(ds, ds.len()),
        );
        lemma_left(m, counted, id);
        assert forall|j: int|
            0 <= j < m2.derivs.len() && k.visited.contains(j as usize) implies (
        #[trigger] m2.derivs[j] matches Some(es) ==> es.len() > 0) by {
            if j != id {
                assert(m2.derivs[j] == m1.derivs[j]);
            }
        }
    }
}

proof fn lemma_all_families(
    w: earley_rank::Walk,
    k: earley_good::Known,
    id: int,
    order: Seq<usize>,
    n: nat,
    m: earley_rank::Found,
    visiting: Seq<bool>,
)
    requires
        shows_all(w, k),
        visiting.len() == w.forest.nodes.len(),
        0 <= id < w.forest.nodes.len(),
        none_empty(w, k, m),
        n <= order.len(),
        forall|j: int|
            0 <= j < order.len() ==> #[trigger] order[j] < w.forest.nodes[id].families.len(),
    ensures
        ({
            let (ds, m1) = earley_tree::families_derived(w, id, order, n, m, visiting);
            &&& none_empty(w, k, m1)
            &&& keeps(m, m1)
            &&& is_one_made(w, k, visiting, id, order, 0, n as int, ds.len() > 0, m1.hits)
        }),
    decreases bits::missing(visiting), 7nat, n,
{
    if n > 0 {
        let i = (n - 1) as nat;
        lemma_all_families(w, k, id, order, i, m, visiting);
        let (ds, m1) = earley_tree::families_derived(w, id, order, i, m, visiting);
        let p = w.forest.nodes[id].families[order[i as int] as int];
        assert(parts_fit(w.forest, p));
        lemma_expanded(w, k, p, m1, visiting);
        let (lists, m2) = earley_tree::packed_expanded(w, p, m1, visiting);
        let (all, m3) = earley_tree::families_derived(w, id, order, n, m, visiting);
        lemma_outcomes_added(w, p.rule as int, ds, lists, lists.len());
        assert(m3.hits == m2.hits);
        assert forall|q: int, e: nat|
            0 <= q < n && #[trigger] is_led(
                w,
                k,
                w.forest.nodes[id].families[order[q] as int],
                e,
            ) implies all.len() > 0 || is_excused(w, k, visiting, m3.hits, e) by {
            if q < i {
                if ds.len() == 0 {
                    lemma_excused_more(w, k, visiting, m1, m2, e);
                }
            }
        }
    }
}

proof fn lemma_expanded(
    w: earley_rank::Walk,
    k: earley_good::Known,
    p: Packed,
    m: earley_rank::Found,
    visiting: Seq<bool>,
)
    requires
        shows_all(w, k),
        visiting.len() == w.forest.nodes.len(),
        parts_fit(w.forest, p),
        none_empty(w, k, m),
    ensures
        ({
            let (lists, m1) = earley_tree::packed_expanded(w, p, m, visiting);
            &&& none_empty(w, k, m1)
            &&& keeps(m, m1)
            &&& is_made(w, k, visiting, p, lists.len() > 0, m1.hits)
        }),
    decreases bits::missing(visiting), 6nat, 0nat,
{
    match p.left {
        ForestRef::Nothing => {
            lemma_right_expanded(w, k, p, seq![Seq::empty()], m, visiting);
        },
        ForestRef::Node(l) => {
            lemma_inter(w, k, l as int, m, visiting);
            let (lefts, m1) = earley_tree::inter_expanded(w, l as int, m, visiting);
            if lefts.len() > 0 {
                lemma_right_expanded(w, k, p, lefts, m1, visiting);
            } else {
                assert forall|e: nat| #[trigger] is_led(w, k, p, e) implies is_excused(
                    w,
                    k,
                    visiting,
                    m1.hits,
                    e,
                ) by {
                    assert(earley_good::good(w.forest, k, l as int, e));
                }
            }
        },
        ForestRef::Tok(t) => {
            let one = seq![earley_tree::token_value(w, t as int)];
            lemma_right_expanded(w, k, p, seq![one], m, visiting);
        },
    }
}

proof fn lemma_right_alternatives(
    w: earley_rank::Walk,
    k: earley_good::Known,
    p: Packed,
    c: usize,
    m: earley_rank::Found,
    visiting: Seq<bool>,
)
    requires
        shows_all(w, k),
        visiting.len() == w.forest.nodes.len(),
        c < w.forest.nodes.len(),
        none_empty(w, k, m),
    ensures
        ({
            let (vs, m1) = earley_tree::right_alternatives(w, p, c as int, m, visiting);
            &&& none_empty(w, k, m1)
            &&& keeps(m, m1)
            &&& is_served(w, k, visiting, c as int, vs.len() > 0, m1.hits)
        }),
    decreases bits::missing(visiting), 5nat, 0nat,
{
    let x = c as int;
    let open = earley_tree::is_transparent(w, x);
    if open || w.rules[p.rule as int].keep_all_tokens {
        let known = if open {
            earley_rank::single_known(
                w,
                x,
                m.single,
                earley_rank::idle(w.forest.nodes.len()),
            )
        } else {
            m.single
        };
        let m0 = earley_rank::Found { single: known, ..m };
        if open && known[x] == Some(true) {
            lemma_rule(w, k, x, earley_tree::blank_buffer(), m0, visiting);
        } else {
            lemma_derivations(w, k, x, m0, visiting);
        }
    } else {
        lemma_value(w, k, x, m, visiting);
    }
}

proof fn lemma_right_expanded(
    w: earley_rank::Walk,
    k: earley_good::Known,
    p: Packed,
    lefts: Seq<Seq<tree_builder::SlotModel>>,
    m: earley_rank::Found,
    visiting: Seq<bool>,
)
    requires
        shows_all(w, k),
        visiting.len() == w.forest.nodes.len(),
        parts_fit(w.forest, p),
        none_empty(w, k, m),
        lefts.len() > 0,
    ensures
        ({
            let (lists, m1) = earley_tree::right_expanded(w, p, lefts, m, visiting);
            &&& none_empty(w, k, m1)
            &&& keeps(m, m1)
            &&& is_made(w, k, visiting, p, lists.len() > 0, m1.hits)
        }),
    decreases bits::missing(visiting), 5nat, 1nat,
{
    match p.right {
        ForestRef::Nothing => {},
        ForestRef::Tok(t) => {
            let one = seq![earley_tree::token_value(w, t as int)];
            lemma_combined(lefts, one, lefts.len());
        },
        ForestRef::Node(c) => {
            lemma_right_alternatives(w, k, p, c, m, visiting);
            let (rights, m1) = earley_tree::right_alternatives(w, p, c as int, m, visiting);
            lemma_combined(lefts, rights, lefts.len());
            let (lists, m2) = earley_tree::right_expanded(w, p, lefts, m, visiting);
            assert(m2.hits == m1.hits);
            assert forall|e: nat| #[trigger] is_led(w, k, p, e) implies lists.len() > 0
                || is_excused(w, k, visiting, m2.hits, e) by {
                assert(earley_good::good(w.forest, k, c as int, e));
            }
        },
    }
}

proof fn lemma_inter(
    w: earley_rank::Walk,
    k: earley_good::Known,
    id: int,
    m: earley_rank::Found,
    visiting: Seq<bool>,
)
    requires
        shows_all(w, k),
        visiting.len() == w.forest.nodes.len(),
        0 <= id < w.forest.nodes.len(),
        none_empty(w, k, m),
    ensures
        ({
            let (lists, m1) = earley_tree::inter_expanded(w, id, m, visiting);
            &&& none_empty(w, k, m1)
            &&& keeps(m, m1)
            &&& is_served(w, k, visiting, id, lists.len() > 0, m1.hits)
        }),
    decreases bits::missing(visiting), 2nat, 0nat,
{
    if visiting[id] {
        lemma_met(w, k, visiting, id, m);
    } else {
        let (order, prio) = earley_rank::tried(w, id, m.prio);
        let m0 = earley_rank::entered(m, prio);
        let inner = visiting.update(id, true);
        lemma_order(w, id, m.prio);
        empty_values::lemma_visit(visiting, id);
        lemma_families_expanded(w, k, id, order, order.len(), m0, inner);
        let (lists, m1) = earley_tree::families_expanded(
            w,
            id,
            order,
            order.len(),
            m0,
            inner,
        );
        lemma_served(w, k, visiting, id, order, m.prio, lists.len() > 0, m1.hits, m.hits);
        lemma_left(m, m1, id);
    }
}

proof fn lemma_families_expanded(
    w: earley_rank::Walk,
    k: earley_good::Known,
    id: int,
    order: Seq<usize>,
    n: nat,
    m: earley_rank::Found,
    visiting: Seq<bool>,
)
    requires
        shows_all(w, k),
        visiting.len() == w.forest.nodes.len(),
        0 <= id < w.forest.nodes.len(),
        none_empty(w, k, m),
        n <= order.len(),
        forall|j: int|
            0 <= j < order.len() ==> #[trigger] order[j] < w.forest.nodes[id].families.len(),
    ensures
        ({
            let (lists, m1) = earley_tree::families_expanded(w, id, order, n, m, visiting);
            &&& none_empty(w, k, m1)
            &&& keeps(m, m1)
            &&& is_one_made(w, k, visiting, id, order, 0, n as int, lists.len() > 0, m1.hits)
        }),
    decreases bits::missing(visiting), 7nat, n,
{
    if n > 0 {
        let i = (n - 1) as nat;
        lemma_families_expanded(w, k, id, order, i, m, visiting);
        let (out, m1) = earley_tree::families_expanded(w, id, order, i, m, visiting);
        let p = w.forest.nodes[id].families[order[i as int] as int];
        assert(parts_fit(w.forest, p));
        lemma_expanded(w, k, p, m1, visiting);
        let (lists, m2) = earley_tree::packed_expanded(w, p, m1, visiting);
        assert forall|q: int, e: nat|
            0 <= q < n && #[trigger] is_led(
                w,
                k,
                w.forest.nodes[id].families[order[q] as int],
                e,
            ) implies (out + lists).len() > 0 || is_excused(w, k, visiting, m2.hits, e) by {
            if q < i {
                if out.len() == 0 {
                    lemma_excused_more(w, k, visiting, m1, m2, e);
                }
            }
        }
    }
}

/// A visited root has a value also where all its derivations are shown.
pub proof fn lemma_root_shown(w: earley_rank::Walk, k: earley_good::Known, root: usize)
    requires
        shows_all(w, k),
        k.visited.contains(root),
        root < w.forest.nodes.len(),
    ensures
        earley_tree::transformed(w, root as int) is Some,
{
    let n = w.forest.nodes.len();
    let m = earley_tree::nothing_found(n);
    let free = earley_rank::idle(n);
    lemma_value(w, k, root as int, m, free);
    let (v, m1) = earley_tree::node_value(w, root as int, m, free);
    assert(earley_good::is_good(w.forest, k, root as int));
    let d = choose|d: nat| #[trigger] earley_good::good(w.forest, k, root as int, d);
    if v is None {
        let y = choose|y: usize| #[trigger] is_excuse(w, k, free, m1.hits, d, y);
        assert(!free[y as int]);
    }
}

} // verus!
