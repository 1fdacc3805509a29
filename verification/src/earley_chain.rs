//! Filling in a forest keeps it in shape: the chains that were cut short.

use vstd::prelude::*;
use crate::analysis;
use crate::earley_chart;
use crate::earley_fill;
use crate::earley_forest;
use crate::earley_forest::{ForestRef, Item, NodeKey, Packed, Trans};
use crate::earley_good;
use crate::earley_led;
use crate::earley_paths;
use crate::earley_shape;
use crate::earley_whole;
use crate::earley_wired;
use crate::symbols::SymbolId;

verus! {

// ---------------------------------------------------------------------------
// Sizes

proof fn lemma_tail_sizes(
    g: earley_chart::Context,
    f: earley_forest::ForestModel,
    rule: usize,
    origin: usize,
    end: usize,
    prev: int,
    from: nat,
    pos: nat,
)
    ensures
        earley_shape::only_families(
            f,
            earley_paths::tail_made(g, f, rule, origin, end, prev, from, pos).0,
        ),
        earley_shape::new_to(
            f,
            earley_paths::tail_made(g, f, rule, origin, end, prev, from, pos).0,
            end,
        ),
    decreases pos,
{
    if pos > from {
        lemma_tail_sizes(g, f, rule, origin, end, prev, from, (pos - 1) as nat);
        let (f1, p1) = earley_paths::tail_made(
            g,
            f,
            rule,
            origin,
            end,
            prev,
            from,
            (pos - 1) as nat,
        );
        let s = g.rules[rule as int].expansion[pos - 1];
        let blank = Seq::new(g.n, |i: int| false);
        let (f2, eps, _b) = earley_paths::eps_made(g, f1, s, end, blank, g.n + 1);
        earley_fill::lemma_eps_sizes(g, f1, s, end, blank, g.n + 1);
        earley_shape::lemma_entry_only(
            f2,
            earley_paths::key_of(g, rule, pos as int),
            origin,
            end,
            Packed {
                rule,
                left: ForestRef::Node(p1 as usize),
                right: ForestRef::Node(eps as usize),
                right_pos: (pos - 1) as usize,
            },
            g.rules[rule as int].order,
        );
        earley_shape::lemma_only_trans(f, f1, f2);
        earley_shape::lemma_only_trans(
            f,
            f2,
            earley_paths::tail_made(g, f, rule, origin, end, prev, from, pos).0,
        );
    }
}

proof fn lemma_link_sizes(
    g: earley_chart::Context,
    f: earley_forest::ForestModel,
    x: Trans,
    end: usize,
)
    ensures
        earley_shape::only_families(f, earley_paths::link_made(g, f, x, end)),
        earley_shape::new_to(f, earley_paths::link_made(g, f, x, end), end),
{
    let key = earley_paths::key_of(g, x.red.rule, x.red.dot + 1);
    let (f1, prev) = earley_forest::got(f, key, x.red.origin, end);
    let (f2, right) = earley_forest::got(f1, NodeKey::Sym(x.recognized), x.key_start, end);
    let p = earley_chart::moved_family(x.red, ForestRef::Node(right as usize));
    let order = g.rules[x.red.rule as int].order;
    let f3 = earley_forest::family_added(f2, prev, p, order);
    earley_shape::lemma_entry_only(f, key, x.red.origin, end, p, order);
    earley_shape::lemma_entry_only(
        f1,
        NodeKey::Sym(x.recognized),
        x.key_start,
        end,
        p,
        order,
    );
    earley_shape::lemma_family_sizes(f2, prev, p, order);
    earley_shape::lemma_only_trans(f, f1, f2);
    earley_shape::lemma_only_trans(f, f2, f3);
    lemma_tail_sizes(
        g,
        f3,
        x.red.rule,
        x.red.origin,
        end,
        prev,
        (x.red.dot + 1) as nat,
        g.rules[x.red.rule as int].expansion.len(),
    );
    earley_shape::lemma_only_trans(f, f3, earley_paths::link_made(g, f, x, end));
}

proof fn lemma_chain_sizes(
    g: earley_chart::Context,
    f: earley_forest::ForestModel,
    arena: Seq<Trans>,
    chain: Seq<usize>,
    end: usize,
)
    ensures
        earley_shape::only_families(f, earley_paths::chain_made(g, f, arena, chain, end)),
        earley_shape::new_to(f, earley_paths::chain_made(g, f, arena, chain, end), end),
    decreases chain.len(),
{
    if chain.len() > 0 {
        let f1 = earley_paths::link_made(g, f, arena[chain.last() as int], end);
        lemma_link_sizes(g, f, arena[chain.last() as int], end);
        lemma_chain_sizes(g, f1, arena, chain.drop_last(), end);
        earley_shape::lemma_only_trans(
            f,
            f1,
            earley_paths::chain_made(g, f, arena, chain, end),
        );
    }
}

/// Filling in chains adds no cut chain.
pub proof fn lemma_paths_sizes(
    g: earley_chart::Context,
    f: earley_forest::ForestModel,
    arena: Seq<Trans>,
    paths: Seq<(usize, ForestRef, usize)>,
    k: nat,
)
    ensures
        earley_shape::only_families(f, earley_paths::paths_made(g, f, arena, paths, k)),
        forall|e: usize|
            (forall|j: int| 0 <= j < k ==> (#[trigger] paths[j]).2 <= e)
                ==> #[trigger] earley_shape::new_to(
                f,
                earley_paths::paths_made(g, f, arena, paths, k),
                e,
            ),
    decreases k,
{
    if k > 0 {
        lemma_paths_sizes(g, f, arena, paths, (k - 1) as nat);
        let f1 = earley_paths::paths_made(g, f, arena, paths, (k - 1) as nat);
        let p = paths[k - 1];
        lemma_chain_sizes(g, f1, arena, earley_paths::chain_of(arena, p.0 as int), p.2);
        let h = earley_paths::paths_made(g, f, arena, paths, k);
        earley_shape::lemma_only_trans(f, f1, h);
        assert forall|e: usize|
            (forall|j: int| 0 <= j < k ==> (#[trigger] paths[j]).2 <= e) implies
            #[trigger] earley_shape::new_to(f, h, e) by {
            assert(paths[k - 1].2 <= e);
            assert(earley_shape::new_to(f, f1, e));
            assert(earley_shape::new_to(f1, h, e));
        }
    }
}

// ---------------------------------------------------------------------------
// What is below a column

/// Whether a node ends before column `e`, or spans nothing.
pub open spec fn is_lower(n: earley_forest::NodeModel, e: usize) -> bool {
    n.end < e || n.start == n.end
}

/// The same knowledge with nothing taken to be buildable.
pub open spec fn alone(k: earley_good::Known) -> earley_good::Known {
    earley_good::with_given(k, Set::empty())
}

/// The same knowledge with one node taken to be buildable.
pub open spec fn from_one(k: earley_good::Known, x: int) -> earley_good::Known {
    earley_good::with_given(k, set![x])
}

/// Whether the nodes below column `e` can be built.
pub open spec fn lower_good(
    f: earley_forest::ForestModel,
    k: earley_good::Known,
    e: usize,
) -> bool {
    forall|x: int|
        0 <= x < f.nodes.len() && is_lower(#[trigger] f.nodes[x], e) ==> earley_good::is_good(
            f,
            alone(k),
            x,
        )
}

/// Whether the visited nodes are nodes of the forest.
pub open spec fn visited_in(f: earley_forest::ForestModel, k: earley_good::Known) -> bool {
    forall|v: usize| #[trigger] k.visited.contains(v) ==> v < f.nodes.len()
}

/// Whether no visited node has the given label.
pub open spec fn unvisited(
    f: earley_forest::ForestModel,
    k: earley_good::Known,
    key: NodeKey,
    start: usize,
    end: usize,
) -> bool {
    forall|v: usize| #[trigger]
        k.visited.contains(v) ==> !earley_forest::labelled(f.nodes[v as int], key, start, end)
}

/// What was not visited still is not as the forest grows.
pub proof fn lemma_unvisited_grown(
    f: earley_forest::ForestModel,
    h: earley_forest::ForestModel,
    k: earley_good::Known,
    key: NodeKey,
    start: usize,
    end: usize,
)
    requires
        earley_forest::extends(f, h),
        visited_in(f, k),
        unvisited(f, k, key, start, end),
    ensures
        unvisited(h, k, key, start, end),
{
    assert forall|v: usize| #[trigger] k.visited.contains(v) implies !earley_forest::labelled(
        h.nodes[v as int],
        key,
        start,
        end,
    ) by {
        let n = f.nodes[v as int];
        assert(earley_forest::labelled(h.nodes[v as int], n.key, n.start, n.end));
    }
}

/// What can be built of nothing can be built of anything.
pub proof fn lemma_alone(
    f: earley_forest::ForestModel,
    k: earley_good::Known,
    given: Set<int>,
    x: int,
)
    requires
        earley_good::is_good(f, alone(k), x),
    ensures
        earley_good::is_good(f, earley_good::with_given(k, given), x),
{
    earley_good::lemma_is_good_cut(f, alone(k), earley_good::with_given(k, given), x);
}

/// The nodes below a column stay buildable as the forest grows, where the new
/// nodes below it are.
proof fn lemma_lower_grown(
    f: earley_forest::ForestModel,
    h: earley_forest::ForestModel,
    k: earley_good::Known,
    e: usize,
)
    requires
        earley_shape::grown(f, h),
        lower_good(f, k, e),
        forall|x: int|
            f.nodes.len() <= x < h.nodes.len() && is_lower(#[trigger] h.nodes[x], e)
                ==> earley_good::is_good(h, alone(k), x),
    ensures
        lower_good(h, k, e),
{
    assert forall|x: int|
        0 <= x < h.nodes.len() && is_lower(#[trigger] h.nodes[x], e) implies earley_good::is_good(
        h,
        alone(k),
        x,
    ) by {
        if x < f.nodes.len() {
            let n = f.nodes[x];
            assert(earley_forest::labelled(h.nodes[x], n.key, n.start, n.end));
            earley_good::lemma_is_good_grown(f, h, alone(k), x);
        }
    }
}

/// Buildable nodes that derive nothing have families.
pub proof fn lemma_lower_filled(
    g: earley_chart::Context,
    arena: Seq<Trans>,
    gr: earley_shape::Ground,
    f: earley_forest::ForestModel,
    k: earley_good::Known,
    e: usize,
    col: usize,
)
    requires
        earley_shape::in_shape(g, arena, gr, f),
        lower_good(f, k, e),
    ensures
        earley_fill::eps_filled(f, col),
{
    assert forall|x: int|
        0 <= x < f.nodes.len() && (#[trigger] f.nodes[x]).start == col && f.nodes[x].end
            == col implies f.nodes[x].families.len() > 0 by {
        assert(is_lower(f.nodes[x], e));
        let d = choose|d: nat| #[trigger] earley_good::good(f, alone(k), x, d);
        if f.nodes[x].paths.len() > 0 {
            let p = f.nodes[x].paths[0];
            assert(earley_shape::is_path(g, gr, arena, f, f.nodes[x], p));
        }
    }
}

// ---------------------------------------------------------------------------
// Filling in a chain

/// The symbols at the end of a rule, all deriving nothing.
#[verifier::rlimit(30)]
pub proof fn lemma_tail_made(
    g: earley_chart::Context,
    arena: Seq<Trans>,
    gr: earley_shape::Ground,
    f: earley_forest::ForestModel,
    k: earley_good::Known,
    rule: usize,
    origin: usize,
    end: usize,
    prev: int,
    from: nat,
    pos: nat,
)
    requires
        earley_chart::context_ok(g),
        earley_fill::flags_true(g),
        earley_shape::in_shape(g, arena, gr, f),
        lower_good(f, k, end),
        visited_in(f, k),
        rule < g.rules.len(),
        0 < from <= pos <= g.rules[rule as int].expansion.len(),
        origin < end,
        0 <= prev < f.nodes.len(),
        earley_forest::labelled(
            f.nodes[prev],
            earley_chart::key_at(g, rule, from as int),
            origin,
            end,
        ),
        forall|d: int|
            from < d <= pos ==> unvisited(
                f,
                k,
                #[trigger] earley_chart::key_at(g, rule, d),
                origin,
                end,
            ),
        forall|j: int|
            from <= j < g.rules[rule as int].expansion.len()
                ==> g.nullable[(#[trigger] g.rules[rule as int].expansion[j]).ix() as int],
        earley_shape::within_limits(
            earley_paths::tail_made(g, f, rule, origin, end, prev, from, pos).0,
        ),
    ensures
        ({
            let (w, node) = earley_paths::tail_made(g, f, rule, origin, end, prev, from, pos);
            &&& earley_shape::in_shape(g, arena, gr, w)
            &&& earley_shape::grown(f, w)
            &&& lower_good(w, k, end)
            &&& 0 <= node < w.nodes.len()
            &&& earley_forest::labelled(
                w.nodes[node],
                earley_chart::key_at(g, rule, pos as int),
                origin,
                end,
            )
            &&& earley_good::is_good(w, from_one(k, prev), node)
            &&& forall|x: int|
                f.nodes.len() <= x < w.nodes.len() ==> #[trigger] earley_good::is_good(
                    w,
                    from_one(k, prev),
                    x,
                )
        }),
    decreases pos,
{
    let one = from_one(k, prev);
    if pos <= from {
        earley_shape::lemma_grown_self(f);
        earley_good::lemma_given_good(f, one, prev);
    } else {
        earley_fill::lemma_flags_closed(g);
        let e = g.rules[rule as int].expansion;
        let s = e[pos - 1];
        assert(g.rules[rule as int].origin.ix() >= g.nt && e.len() <= usize::MAX);
        assert(g.rules[rule as int].expansion[pos - 1].ix() < g.n);
        assert(g.nullable[g.rules[rule as int].expansion[pos - 1].ix() as int]);
        let (f1, p1) = earley_paths::tail_made(
            g,
            f,
            rule,
            origin,
            end,
            prev,
            from,
            (pos - 1) as nat,
        );
        let blank = Seq::new(g.n, |i: int| false);
        let (f2, eps, b) = earley_paths::eps_made(g, f1, s, end, blank, g.n + 1);
        let key = earley_chart::key_at(g, rule, pos as int);
        let (f3, next) = earley_forest::got(f2, key, origin, end);
        let p = Packed {
            rule,
            left: ForestRef::Node(p1 as usize),
            right: ForestRef::Node(eps as usize),
            right_pos: (pos - 1) as usize,
        };
        let order = g.rules[rule as int].order;
        let w = earley_paths::tail_made(g, f, rule, origin, end, prev, from, pos).0;
        assert(w == earley_forest::family_added(f3, next, p, order));
        earley_shape::lemma_entry_only(f2, key, origin, end, p, order);
        earley_shape::lemma_sizes_limits(f2, w);
        earley_fill::lemma_eps_sizes(g, f1, s, end, blank, g.n + 1);
        earley_shape::lemma_sizes_limits(f1, f2);
        lemma_tail_made(
            g,
            arena,
            gr,
            f,
            k,
            rule,
            origin,
            end,
            prev,
            from,
            (pos - 1) as nat,
        );
        lemma_lower_filled(g, arena, gr, f1, k, end, end);
        earley_shape::lemma_grown_self(f1);
        assert(earley_fill::eps_state(
            g,
            arena,
            gr,
            f1,
            f1,
            end,
            blank,
            Set::empty(),
        ));
        earley_paths::lemma_missing_bound(blank);
        earley_fill::lemma_eps_made(
            g,
            arena,
            gr,
            f1,
            f1,
            s,
            end,
            blank,
            Set::empty(),
            g.n + 1,
        );
        assert(earley_fill::nulls_known(f1, alone(k), end)) by {
            assert forall|x: int|
                0 <= x < f1.nodes.len() && (#[trigger] f1.nodes[x]).start == end
                    && f1.nodes[x].end == end implies earley_good::is_good(f1, alone(k), x) by {
                assert(is_lower(f1.nodes[x], end));
            }
        }
        assert forall|x: int|
            f1.nodes.len() <= x < f2.nodes.len() implies #[trigger] earley_good::is_good(
            f2,
            alone(k),
            x,
        ) by {
            earley_fill::lemma_eps_good(g, arena, gr, f1, f2, end, b, alone(k), x);
        }
        lemma_lower_grown(f1, f2, k, end);
        assert(earley_good::is_good(f2, alone(k), eps)) by {
            assert(is_lower(f2.nodes[eps], end));
        }
        earley_shape::lemma_at_grown(
            f1,
            f2,
            p.left,
            earley_chart::key_at(g, rule, pos - 1),
            origin,
            end,
        );
        let n = earley_forest::bare_node(key, origin, end);
        assert(earley_shape::is_family(g, gr, f2, n, p));
        earley_shape::lemma_entry_shape(g, arena, gr, f2, key, origin, end, p, order);
        lemma_lower_grown(f2, w, k, end);
        earley_shape::lemma_grown_trans(f, f1, f2);
        earley_shape::lemma_grown_trans(f, f2, w);
        earley_shape::lemma_grown_trans(f1, f2, w);
        earley_good::lemma_is_good_grown(f1, w, one, p1);
        earley_good::lemma_is_good_grown(f2, w, alone(k), eps);
        lemma_alone(w, k, set![prev], eps);
        assert(unvisited(f, k, earley_chart::key_at(g, rule, pos as int), origin, end));
        lemma_unvisited_grown(f, w, k, key, origin, end);
        earley_good::lemma_by_family(w, one, next, p.left, p.right);
        assert forall|x: int|
            f.nodes.len() <= x < w.nodes.len() implies #[trigger] earley_good::is_good(
            w,
            one,
            x,
        ) by {
            if x < f1.nodes.len() {
                assert(earley_good::is_good(f1, one, x));
                earley_good::lemma_is_good_grown(f1, w, one, x);
            } else if x < f2.nodes.len() {
                assert(earley_good::is_good(f2, alone(k), x));
                earley_good::lemma_is_good_grown(f2, w, alone(k), x);
                lemma_alone(w, k, set![prev], x);
            } else {
                assert(x == next);
            }
        }
    }
}

// ---------------------------------------------------------------------------
// Links

/// Whether a link is in order with respect to a forest: the only item that
/// waits for its symbol refers to the node of what it has passed, and what
/// stands behind that symbol derives nothing.
pub open spec fn is_link(
    g: earley_chart::Context,
    gr: earley_shape::Ground,
    start: SymbolId,
    f: earley_forest::ForestModel,
    arena: Seq<Trans>,
    t: int,
) -> bool {
    let x = arena[t];
    let e = g.rules[x.red.rule as int].expansion;
    &&& x.red.rule < g.rules.len()
    &&& x.red.dot < e.len()
    &&& e[x.red.dot as int] == x.recognized
    &&& x.red.origin <= x.key_start < gr.cols.len()
    &&& if x.red.dot == 0 {
        x.red.node is Nothing && x.red.origin == x.key_start
    } else {
        earley_shape::is_at(
            f,
            x.red.node,
            NodeKey::Inter(x.red.rule, x.red.dot),
            x.red.origin,
            x.key_start,
        )
    }
    &&& earley_chart::waiting(g, gr.cols[x.key_start as int], x.recognized) == seq![x.red]
    &&& forall|j: int|
        x.red.dot < j < e.len() ==> g.nullable[(#[trigger] e[j]).ix() as int]
            && !analysis::grows(g.rules, g.nt, e[j])
    &&& !(x.recognized == start && x.key_start == 0)
    &&& match x.parent {
        Some(p) => {
            &&& p < t
            &&& arena[p as int].recognized == g.rules[x.red.rule as int].origin
            &&& arena[p as int].key_start == x.red.origin
            &&& arena[p as int].top == x.top
        },
        None => x.top.rule == x.red.rule && x.top.origin == x.red.origin,
    }
}

/// Whether every link is in order.
pub open spec fn are_links(
    g: earley_chart::Context,
    gr: earley_shape::Ground,
    start: SymbolId,
    f: earley_forest::ForestModel,
    arena: Seq<Trans>,
) -> bool {
    forall|t: int| 0 <= t < arena.len() ==> #[trigger] is_link(g, gr, start, f, arena, t)
}

/// Links stay in order as the forest grows.
pub proof fn lemma_links_grown(
    g: earley_chart::Context,
    gr: earley_shape::Ground,
    start: SymbolId,
    f: earley_forest::ForestModel,
    h: earley_forest::ForestModel,
    arena: Seq<Trans>,
)
    requires
        earley_forest::extends(f, h),
        are_links(g, gr, start, f, arena),
    ensures
        are_links(g, gr, start, h, arena),
{
    assert forall|t: int| 0 <= t < arena.len() implies #[trigger] is_link(
        g,
        gr,
        start,
        h,
        arena,
        t,
    ) by {
        assert(is_link(g, gr, start, f, arena, t));
        let x = arena[t];
        if x.red.dot > 0 {
            earley_shape::lemma_at_grown(
                f,
                h,
                x.red.node,
                NodeKey::Inter(x.red.rule, x.red.dot),
                x.red.origin,
                x.key_start,
            );
        }
    }
}

/// Whether a family has a node among its parts.
pub open spec fn refers(p: Packed, v: usize) -> bool {
    p.left == ForestRef::Node(v) || p.right == ForestRef::Node(v)
}

/// Whether a visited node has a family with the node `v` among its parts.
#[verifier::opaque]
pub open spec fn reached_by(
    f: earley_forest::ForestModel,
    k: earley_good::Known,
    v: usize,
) -> bool {
    exists|u: usize, j: int|
        k.visited.contains(u) && 0 <= j < f.nodes[u as int].families.len() && refers(
            #[trigger] f.nodes[u as int].families[j],
            v,
        )
}

/// The visited node from which a node was reached, and the family.
pub proof fn lemma_reached(
    f: earley_forest::ForestModel,
    k: earley_good::Known,
    v: usize,
) -> (r: (usize, int))
    requires
        reached_by(f, k, v),
    ensures
        k.visited.contains(r.0),
        0 <= r.1 < f.nodes[r.0 as int].families.len(),
        refers(f.nodes[r.0 as int].families[r.1], v),
{
    reveal(reached_by);
    choose|u: usize, j: int|
        k.visited.contains(u) && 0 <= j < f.nodes[u as int].families.len() && refers(
            #[trigger] f.nodes[u as int].families[j],
            v,
        )
}

/// A node is reached by a family of a visited node.
pub proof fn lemma_reach(
    f: earley_forest::ForestModel,
    k: earley_good::Known,
    u: usize,
    j: int,
    v: usize,
)
    requires
        k.visited.contains(u),
        0 <= j < f.nodes[u as int].families.len(),
        refers(f.nodes[u as int].families[j], v),
    ensures
        reached_by(f, k, v),
{
    reveal(reached_by);
}

/// Whether each visited node is the root or was reached from a visited node.
pub open spec fn is_reached(
    f: earley_forest::ForestModel,
    k: earley_good::Known,
    root: usize,
) -> bool {
    forall|v: usize| #[trigger] k.visited.contains(v) ==> v == root || reached_by(f, k, v)
}

/// Whether the root, where anything is visited, is a node of the start symbol from
/// the beginning.
pub open spec fn is_rooted(
    gr: earley_shape::Ground,
    f: earley_forest::ForestModel,
    k: earley_good::Known,
    root: usize,
) -> bool {
    k.visited.len() > 0 ==> root < f.nodes.len() && f.nodes[root as int].key == NodeKey::Sym(
        gr.start,
    ) && f.nodes[root as int].start == 0
}

/// What was reached stays so as the forest grows.
pub proof fn lemma_reached_grown(
    f: earley_forest::ForestModel,
    h: earley_forest::ForestModel,
    k: earley_good::Known,
    v: usize,
)
    requires
        earley_shape::grown(f, h),
        visited_in(f, k),
        reached_by(f, k, v),
    ensures
        reached_by(h, k, v),
{
    let (u, j) = lemma_reached(f, k, v);
    let p = f.nodes[u as int].families[j];
    assert(earley_forest::has_pair(h.nodes[u as int].families, p.left, p.right));
    let hs = h.nodes[u as int].families;
    let q = choose|q: int|
        0 <= q < hs.len() && (#[trigger] hs[q]).left == p.left && hs[q].right == p.right;
    lemma_reach(h, k, u, q, v);
}

proof fn lemma_all_reached_grown(
    f: earley_forest::ForestModel,
    h: earley_forest::ForestModel,
    k: earley_good::Known,
    root: usize,
)
    requires
        earley_shape::grown(f, h),
        visited_in(f, k),
        is_reached(f, k, root),
    ensures
        is_reached(h, k, root),
{
    assert forall|v: usize| #[trigger] k.visited.contains(v) implies v == root || reached_by(
        h,
        k,
        v,
    ) by {
        if v != root {
            lemma_reached_grown(f, h, k, v);
        }
    }
}

/// A part of a rule is visited only if the rule one symbol further is, where
/// that symbol does not grow.
pub proof fn lemma_part_unvisited(
    g: earley_chart::Context,
    arena: Seq<Trans>,
    gr: earley_shape::Ground,
    f: earley_forest::ForestModel,
    k: earley_good::Known,
    root: usize,
    rule: usize,
    d: usize,
    origin: usize,
    end: usize,
)
    requires
        earley_chart::context_ok(g),
        earley_shape::in_shape(g, arena, gr, f),
        visited_in(f, k),
        is_reached(f, k, root),
        is_rooted(gr, f, k, root),
        rule < g.rules.len(),
        0 < d < g.rules[rule as int].expansion.len(),
        !analysis::grows(g.rules, g.nt, g.rules[rule as int].expansion[d as int]),
        d + 1 < g.rules[rule as int].expansion.len() ==> !analysis::grows(
            g.rules,
            g.nt,
            g.rules[rule as int].expansion[d + 1],
        ),
        origin < end,
        earley_shape::uncarried(gr, g.rules[rule as int].origin, origin, end),
        unvisited(f, k, earley_chart::key_at(g, rule, d + 1), origin, end),
    ensures
        unvisited(f, k, NodeKey::Inter(rule, d), origin, end),
{
    assert forall|v: usize| #[trigger] k.visited.contains(v) implies !earley_forest::labelled(
        f.nodes[v as int],
        NodeKey::Inter(rule, d),
        origin,
        end,
    ) by {
        if earley_forest::labelled(f.nodes[v as int], NodeKey::Inter(rule, d), origin, end) {
            assert(reached_by(f, k, v));
            let (u, j) = lemma_reached(f, k, v);
            let n = f.nodes[u as int];
            let p = f.nodes[u as int].families[j];
            assert(earley_shape::is_family(g, gr, f, n, p));
            let s = g.rules[rule as int].expansion[d as int];
            assert(p.left == ForestRef::Node(v));
            assert(p.rule == rule && p.right_pos == d && n.start == origin);
            let e = g.rules[rule as int].expansion;
            if s.ix() < g.nt {
                analysis::lemma_terminal_grows(g.rules, g.nt, s);
            }
            if d + 1 < e.len() && e[d + 1].ix() < g.nt {
                analysis::lemma_terminal_grows(g.rules, g.nt, e[d + 1]);
            }
            let c = p.right->Node_0 as int;
            assert(earley_shape::label_ok(
                g,
                gr,
                f.nodes[c].key,
                f.nodes[c].start,
                f.nodes[c].end,
            ));
            assert(earley_shape::mid_of(f, n, p) == end);
            assert(earley_shape::stop_of(f, n, p) == end);
            assert(n.key == earley_chart::key_at(g, rule, d + 1));
            assert(earley_forest::labelled(
                n,
                earley_chart::key_at(g, rule, d + 1),
                origin,
                end,
            ));
        }
    }
}

/// The symbol of a link is visited only if the item that waits for it is.
pub proof fn lemma_symbol_unvisited(
    g: earley_chart::Context,
    arena: Seq<Trans>,
    gr: earley_shape::Ground,
    start: SymbolId,
    f: earley_forest::ForestModel,
    k: earley_good::Known,
    root: usize,
    t: int,
    end: usize,
)
    requires
        earley_chart::context_ok(g),
        earley_shape::in_shape(g, arena, gr, f),
        visited_in(f, k),
        is_reached(f, k, root),
        is_rooted(gr, f, k, root),
        gr.start == start,
        is_link(g, gr, start, f, arena, t),
        arena[t].key_start < end,
        earley_shape::uncarried(
            gr,
            g.rules[arena[t].red.rule as int].origin,
            arena[t].red.origin,
            end,
        ),
        unvisited(
            f,
            k,
            earley_chart::key_at(g, arena[t].red.rule, arena[t].red.dot + 1),
            arena[t].red.origin,
            end,
        ),
    ensures
        unvisited(f, k, NodeKey::Sym(arena[t].recognized), arena[t].key_start, end),
{
    let x = arena[t];
    let key = NodeKey::Sym(x.recognized);
    assert forall|v: usize| #[trigger] k.visited.contains(v) implies !earley_forest::labelled(
        f.nodes[v as int],
        key,
        x.key_start,
        end,
    ) by {
        if earley_forest::labelled(f.nodes[v as int], key, x.key_start, end) {
            assert(v != root);
            assert(reached_by(f, k, v));
            let (u, j) = lemma_reached(f, k, v);
            let n = f.nodes[u as int];
            let p = f.nodes[u as int].families[j];
            assert(earley_shape::is_family(g, gr, f, n, p));
            assert(p.right == ForestRef::Node(v));
            let column = gr.cols[x.key_start as int];
            let y = earley_shape::mark(p.rule, p.right_pos, n.start);
            assert(earley_chart::has_item(column, y));
            let q = choose|q: int|
                0 <= q < column.len() && earley_chart::same_item(#[trigger] column[q], y);
            assert(earley_chart::expected(g, column[q]) == Some(x.recognized));
            earley_chart::lemma_waiting(g, column, x.recognized);
            assert(seq![x.red].contains(column[q]));
            assert(column[q] == x.red);
            let e = g.rules[x.red.rule as int].expansion;
            if x.red.dot + 1 < e.len() && e[x.red.dot + 1].ix() < g.nt {
                analysis::lemma_terminal_grows(g.rules, g.nt, e[x.red.dot + 1]);
            }
            assert(earley_shape::stop_of(f, n, p) == end);
            assert(n.end == end);
        }
    }
}

/// Every part of the rule of a link behind its symbol is unvisited, and so is
/// its symbol, where what the rule produces is unvisited.
pub proof fn lemma_link_unvisited(
    g: earley_chart::Context,
    arena: Seq<Trans>,
    gr: earley_shape::Ground,
    start: SymbolId,
    f: earley_forest::ForestModel,
    k: earley_good::Known,
    root: usize,
    t: int,
    end: usize,
    d: int,
)
    requires
        earley_chart::context_ok(g),
        earley_shape::in_shape(g, arena, gr, f),
        visited_in(f, k),
        is_reached(f, k, root),
        is_rooted(gr, f, k, root),
        gr.start == start,
        is_link(g, gr, start, f, arena, t),
        arena[t].key_start < end,
        earley_shape::uncarried(
            gr,
            g.rules[arena[t].red.rule as int].origin,
            arena[t].red.origin,
            end,
        ),
        unvisited(
            f,
            k,
            NodeKey::Sym(g.rules[arena[t].red.rule as int].origin),
            arena[t].red.origin,
            end,
        ),
        arena[t].red.dot < d <= g.rules[arena[t].red.rule as int].expansion.len(),
    ensures
        unvisited(
            f,
            k,
            earley_chart::key_at(g, arena[t].red.rule, d),
            arena[t].red.origin,
            end,
        ),
    decreases g.rules[arena[t].red.rule as int].expansion.len() - d,
{
    let x = arena[t];
    let e = g.rules[x.red.rule as int].expansion;
    assert(e.len() <= usize::MAX);
    if d < e.len() {
        lemma_link_unvisited(g, arena, gr, start, f, k, root, t, end, d + 1);
        assert(!analysis::grows(g.rules, g.nt, e[d]));
        lemma_part_unvisited(
            g,
            arena,
            gr,
            f,
            k,
            root,
            x.red.rule,
            d as usize,
            x.red.origin,
            end,
        );
    }
}

/// What is common to the filling in of a chain.
pub open spec fn fill_state(
    g: earley_chart::Context,
    arena: Seq<Trans>,
    gr: earley_shape::Ground,
    start: SymbolId,
    f: earley_forest::ForestModel,
    k: earley_good::Known,
    root: usize,
    end: usize,
) -> bool {
    &&& earley_shape::in_shape(g, arena, gr, f)
    &&& are_links(g, gr, start, f, arena)
    &&& lower_good(f, k, end)
    &&& visited_in(f, k)
    &&& is_reached(f, k, root)
    &&& is_rooted(gr, f, k, root)
    &&& gr.start == start
}

proof fn lemma_fill_grown(
    g: earley_chart::Context,
    arena: Seq<Trans>,
    gr: earley_shape::Ground,
    start: SymbolId,
    f: earley_forest::ForestModel,
    h: earley_forest::ForestModel,
    k: earley_good::Known,
    root: usize,
    end: usize,
)
    requires
        fill_state(g, arena, gr, start, f, k, root, end),
        earley_shape::in_shape(g, arena, gr, h),
        earley_shape::grown(f, h),
        lower_good(h, k, end),
    ensures
        fill_state(g, arena, gr, start, h, k, root, end),
{
    lemma_links_grown(g, gr, start, f, h, arena);
    lemma_all_reached_grown(f, h, k, root);
    if k.visited.len() > 0 {
        let n = f.nodes[root as int];
        assert(earley_forest::labelled(h.nodes[root as int], n.key, n.start, n.end));
    }
}

/// A link filled in has its families, and leaves the forest whole.
proof fn lemma_link_whole(
    g: earley_chart::Context,
    arena: Seq<Trans>,
    gr: earley_shape::Ground,
    f: earley_forest::ForestModel,
    f2: earley_forest::ForestModel,
    k: earley_good::Known,
    t: int,
    end: usize,
    prev: int,
    right: int,
)
    requires
        earley_chart::context_ok(g),
        earley_fill::flags_true(g),
        0 <= t < arena.len(),
        earley_whole::is_whole(g, arena, f),
        arena[t].red.rule < g.rules.len(),
        arena[t].red.dot < g.rules[arena[t].red.rule as int].expansion.len(),
        g.rules[arena[t].red.rule as int].expansion[arena[t].red.dot as int]
            == arena[t].recognized,
        arena[t].red.origin <= arena[t].key_start < end,
        earley_shape::in_shape(g, arena, gr, f2),
        earley_shape::grown(f, f2),
        forall|x: int|
            f.nodes.len() <= x < f2.nodes.len() ==> (#[trigger] f2.nodes[x]).start
                < f2.nodes[x].end,
        0 <= prev < f2.nodes.len() <= usize::MAX,
        0 <= right < f2.nodes.len(),
        earley_forest::labelled(
            f2.nodes[prev],
            earley_chart::key_at(g, arena[t].red.rule, arena[t].red.dot + 1),
            arena[t].red.origin,
            end,
        ),
        earley_forest::labelled(
            f2.nodes[right],
            NodeKey::Sym(arena[t].recognized),
            arena[t].key_start,
            end,
        ),
        earley_wired::left_ok(
            f2,
            arena[t].red.rule as int,
            arena[t].red.dot as int,
            arena[t].red.origin as int,
            arena[t].key_start as int,
            arena[t].red.node,
        ),
        ({
            let x = arena[t];
            let p = earley_chart::moved_family(x.red, ForestRef::Node(right as usize));
            let f3 = earley_forest::family_added(
                f2,
                prev,
                p,
                g.rules[x.red.rule as int].order,
            );
            let w = earley_paths::link_made(g, f, x, end);
            &&& earley_shape::in_shape(g, arena, gr, f3)
            &&& earley_shape::grown(f2, f3)
            &&& earley_shape::grown(f3, w)
            &&& lower_good(f3, k, end)
            &&& visited_in(f3, k)
            &&& earley_shape::within_limits(w)
            &&& w == earley_paths::tail_made(
                g,
                f3,
                x.red.rule,
                x.red.origin,
                end,
                prev,
                (x.red.dot + 1) as nat,
                g.rules[x.red.rule as int].expansion.len(),
            ).0
            &&& forall|d: int|
                x.red.dot < d <= g.rules[x.red.rule as int].expansion.len() ==> unvisited(
                    f3,
                    k,
                    #[trigger] earley_chart::key_at(g, x.red.rule, d),
                    x.red.origin,
                    end,
                )
            &&& forall|j: int|
                x.red.dot < j < g.rules[x.red.rule as int].expansion.len() ==> g.nullable[(
                #[trigger] g.rules[x.red.rule as int].expansion[j]).ix() as int]
        }),
    ensures
        earley_whole::is_whole(g, arena, earley_paths::link_made(g, f, arena[t], end)),
        earley_whole::link_in(
            g,
            earley_paths::link_made(g, f, arena[t], end),
            arena[t],
            end,
        ),
{
    reveal(earley_whole::is_whole);
    reveal(earley_whole::link_in);
    let x = arena[t];
    let e = g.rules[x.red.rule as int].expansion;
    let p = earley_chart::moved_family(x.red, ForestRef::Node(right as usize));
    let order = g.rules[x.red.rule as int].order;
    let f3 = earley_forest::family_added(f2, prev, p, order);
    let w = earley_paths::link_made(g, f, x, end);
    earley_whole::lemma_nulls_grown(g, f, f2);
    earley_whole::lemma_nulls_grown(g, f2, f3);
    earley_whole::lemma_tail_whole(
        g,
        arena,
        gr,
        f3,
        k,
        x.red.rule,
        x.red.origin,
        end,
        prev,
        (x.red.dot + 1) as nat,
        e.len(),
    );
    earley_led::lemma_family_in(f2, prev, p, order);
    if x.red.dot > 0 {
        earley_shape::lemma_at_grown(
            f2,
            f3,
            x.red.node,
            NodeKey::Inter(x.red.rule, x.red.dot),
            x.red.origin,
            x.key_start,
        );
    }
    earley_shape::lemma_at_grown(
        f2,
        f3,
        p.right,
        NodeKey::Sym(x.recognized),
        x.key_start,
        end,
    );
    assert(arena[t].recognized.ix() >= g.nt);
    assert(earley_wired::is_part(
        g,
        f3,
        x.red.rule as int,
        x.red.dot as int,
        x.red.origin as int,
        x.key_start as int,
        end as int,
        prev,
        p.left,
        p.right,
    ));
    earley_wired::lemma_part_grown(
        g,
        f3,
        w,
        x.red.rule as int,
        x.red.dot as int,
        x.red.origin as int,
        x.key_start as int,
        end as int,
    );
}

/// A link filled in: the node of what it produces can be built of the node of
/// its symbol, and so can every new node.
#[verifier::rlimit(40)]
pub proof fn lemma_link_made(
    g: earley_chart::Context,
    arena: Seq<Trans>,
    gr: earley_shape::Ground,
    start: SymbolId,
    f: earley_forest::ForestModel,
    k: earley_good::Known,
    root: usize,
    t: int,
    end: usize,
) -> (r: (int, int))
    requires
        earley_chart::context_ok(g),
        earley_fill::flags_true(g),
        fill_state(g, arena, gr, start, f, k, root, end),
        0 <= t < arena.len(),
        arena[t].key_start < end,
        earley_shape::spans(g, gr, arena[t].recognized, arena[t].key_start),
        earley_shape::uncarried(
            gr,
            g.rules[arena[t].red.rule as int].origin,
            arena[t].red.origin,
            end,
        ),
        unvisited(
            f,
            k,
            NodeKey::Sym(g.rules[arena[t].red.rule as int].origin),
            arena[t].red.origin,
            end,
        ),
        earley_shape::within_limits(earley_paths::link_made(g, f, arena[t], end)),
    ensures
        ({
            let w = earley_paths::link_made(g, f, arena[t], end);
            &&& fill_state(g, arena, gr, start, w, k, root, end)
            &&& earley_shape::grown(f, w)
            &&& 0 <= r.0 < w.nodes.len()
            &&& 0 <= r.1 < w.nodes.len()
            &&& earley_forest::labelled(
                w.nodes[r.0],
                NodeKey::Sym(g.rules[arena[t].red.rule as int].origin),
                arena[t].red.origin,
                end,
            )
            &&& earley_forest::labelled(
                w.nodes[r.1],
                NodeKey::Sym(arena[t].recognized),
                arena[t].key_start,
                end,
            )
            &&& earley_good::is_good(w, from_one(k, r.1), r.0)
            &&& earley_whole::visited_same(f, w, k)
            &&& earley_whole::is_whole(g, arena, f) ==> earley_whole::is_whole(g, arena, w)
                && earley_whole::link_in(g, w, arena[t], end)
            &&& forall|x: int|
                f.nodes.len() <= x < w.nodes.len() ==> #[trigger] earley_good::is_good(
                    w,
                    from_one(k, r.1),
                    x,
                )
        }),
{
    let x = arena[t];
    assert(is_link(g, gr, start, f, arena, t));
    earley_fill::lemma_flags_closed(g);
    let e = g.rules[x.red.rule as int].expansion;
    let order = g.rules[x.red.rule as int].order;
    assert(e.len() <= usize::MAX);
    let key = earley_chart::key_at(g, x.red.rule, x.red.dot + 1);
    let (f1, prev) = earley_forest::got(f, key, x.red.origin, end);
    let (f2, right) = earley_forest::got(f1, NodeKey::Sym(x.recognized), x.key_start, end);
    let p = earley_chart::moved_family(x.red, ForestRef::Node(right as usize));
    let f3 = earley_forest::family_added(f2, prev, p, order);
    let from = (x.red.dot + 1) as nat;
    let w = earley_paths::link_made(g, f, x, end);
    // Sizes.
    lemma_tail_sizes(g, f3, x.red.rule, x.red.origin, end, prev, from, e.len());
    earley_shape::lemma_sizes_limits(f3, w);
    earley_shape::lemma_entry_only(f, key, x.red.origin, end, p, order);
    earley_shape::lemma_entry_only(f1, NodeKey::Sym(x.recognized), x.key_start, end, p, order);
    earley_shape::lemma_family_sizes(f2, prev, p, order);
    earley_shape::lemma_sizes_limits(f2, f3);
    // The node up to the symbol, and the node of the symbol.
    lemma_link_grows(g, arena, gr, start, f, t, end);
    earley_shape::lemma_got_shape(g, arena, gr, f, key, x.red.origin, end);
    earley_shape::lemma_got_shape(
        g,
        arena,
        gr,
        f1,
        NodeKey::Sym(x.recognized),
        x.key_start,
        end,
    );
    assert(earley_forest::labelled(f2.nodes[prev], key, x.red.origin, end));
    earley_shape::lemma_grown_trans(f, f1, f2);
    if x.red.dot > 0 {
        earley_shape::lemma_at_grown(
            f,
            f2,
            x.red.node,
            NodeKey::Inter(x.red.rule, x.red.dot),
            x.red.origin,
            x.key_start,
        );
    }
    let column = gr.cols[x.key_start as int];
    earley_chart::lemma_waiting(g, column, x.recognized);
    assert(earley_chart::waiting(g, column, x.recognized)[0] == x.red);
    assert(column.contains(x.red));
    let q = choose|q: int| 0 <= q < column.len() && column[q] == x.red;
    assert(earley_chart::same_item(
        column[q],
        earley_shape::mark(p.rule, p.right_pos, x.red.origin),
    ));
    assert(earley_shape::is_family(g, gr, f2, f2.nodes[prev], p));
    earley_shape::lemma_family_shape(g, arena, gr, f2, prev, p, order);
    earley_shape::lemma_grown_trans(f, f2, f3);
    lemma_lower_grown(f, f3, k, end);
    assert(visited_in(f3, k));
    // Nothing of the link is visited.
    assert forall|d: int| x.red.dot < d <= e.len() implies unvisited(
        f3,
        k,
        #[trigger] earley_chart::key_at(g, x.red.rule, d),
        x.red.origin,
        end,
    ) by {
        lemma_link_unvisited(g, arena, gr, start, f, k, root, t, end, d);
        lemma_unvisited_grown(
            f,
            f3,
            k,
            earley_chart::key_at(g, x.red.rule, d),
            x.red.origin,
            end,
        );
    }
    // The rest of the rule.
    assert forall|j: int| from <= j < e.len() implies g.nullable[(
    #[trigger] g.rules[x.red.rule as int].expansion[j]).ix() as int] by {
        assert(g.nullable[e[j].ix() as int]);
    }
    lemma_tail_made(
        g,
        arena,
        gr,
        f3,
        k,
        x.red.rule,
        x.red.origin,
        end,
        prev,
        from,
        e.len(),
    );
    let node = earley_paths::tail_made(
        g,
        f3,
        x.red.rule,
        x.red.origin,
        end,
        prev,
        from,
        e.len(),
    ).1;
    earley_shape::lemma_grown_trans(f, f3, w);
    earley_shape::lemma_grown_trans(f2, f3, w);
    assert forall|d: int| x.red.dot < d <= e.len() implies unvisited(
        f,
        k,
        #[trigger] earley_chart::key_at(g, x.red.rule, d),
        x.red.origin,
        end,
    ) by {
        lemma_link_unvisited(g, arena, gr, start, f, k, root, t, end, d);
    }
    earley_whole::lemma_link_same(g, f, k, x, end);
    if earley_whole::is_whole(g, arena, f) {
        lemma_link_whole(g, arena, gr, f, f2, k, t, end, prev, right);
    }
    lemma_fill_grown(g, arena, gr, start, f, w, k, root, end);
    // All of it can be built of the node of the symbol.
    let one = from_one(k, right);
    earley_good::lemma_given_good(w, one, right);
    if x.red.dot > 0 {
        let l = x.red.node->Node_0 as int;
        assert(is_lower(f.nodes[l], end));
        earley_good::lemma_is_good_grown(f, w, alone(k), l);
        lemma_alone(w, k, set![right], l);
    }
    assert(earley_forest::has_pair(f3.nodes[prev].families, p.left, p.right));
    let fs = f3.nodes[prev].families;
    let j = choose|j: int|
        0 <= j < fs.len() && (#[trigger] fs[j]).left == p.left && fs[j].right == p.right;
    assert(earley_forest::has_pair(
        w.nodes[prev].families,
        f3.nodes[prev].families[j].left,
        f3.nodes[prev].families[j].right,
    ));
    assert(unvisited(
        f3,
        k,
        earley_chart::key_at(g, x.red.rule, x.red.dot + 1),
        x.red.origin,
        end,
    ));
    assert(!k.visited.contains(prev as usize)) by {
        assert(earley_forest::labelled(f3.nodes[prev], key, x.red.origin, end));
    }
    earley_good::lemma_by_family(w, one, prev, p.left, p.right);
    earley_good::lemma_is_good_cut(w, from_one(k, prev), one, node);
    assert forall|y: int| f.nodes.len() <= y < w.nodes.len() implies #[trigger] earley_good::is_good(
        w,
        one,
        y,
    ) by {
        if y < f3.nodes.len() {
            assert(y == prev || y == right);
        } else {
            assert(earley_good::is_good(w, from_one(k, prev), y));
            earley_good::lemma_is_good_cut(w, from_one(k, prev), one, y);
        }
    }
    assert(earley_forest::labelled(
        w.nodes[right],
        f2.nodes[right].key,
        f2.nodes[right].start,
        f2.nodes[right].end,
    ));
    (node, right)
}

// ---------------------------------------------------------------------------
// Chains

/// Whether each link of a list leads on to the next.
pub open spec fn is_chain(arena: Seq<Trans>, chain: Seq<usize>) -> bool {
    &&& forall|i: int| 0 <= i < chain.len() ==> (#[trigger] chain[i]) < arena.len()
    &&& forall|i: int|
        0 < i < chain.len() ==> arena[chain[i - 1] as int].parent == Some(#[trigger] chain[i])
}

/// The links of a chain lead from its first link to its top.
pub proof fn lemma_chain_of(
    g: earley_chart::Context,
    arena: Seq<Trans>,
    gr: earley_shape::Ground,
    start: SymbolId,
    f: earley_forest::ForestModel,
    t: int,
)
    requires
        are_links(g, gr, start, f, arena),
        0 <= t < arena.len() <= usize::MAX,
    ensures
        ({
            let chain = earley_paths::chain_of(arena, t);
            let last = arena[chain.last() as int];
            &&& chain.len() > 0
            &&& chain[0] == t
            &&& is_chain(arena, chain)
            &&& last.parent is None
            &&& last.top == arena[t].top
        }),
    decreases t,
{
    assert(is_link(g, gr, start, f, arena, t));
    if let Some(p) = arena[t].parent {
        lemma_chain_of(g, arena, gr, start, f, p as int);
        let rest = earley_paths::chain_of(arena, p as int);
        let chain = earley_paths::chain_of(arena, t);
        assert(chain =~= seq![t as usize] + rest);
        assert(chain.last() == rest.last());
        assert forall|i: int| 0 < i < chain.len() implies arena[chain[i - 1] as int].parent == Some(
            #[trigger] chain[i],
        ) by {
            assert(chain[i] == rest[i - 1]);
            if i > 1 {
                assert(chain[i - 1] == rest[i - 2]);
            }
        }
        assert forall|i: int| 0 <= i < chain.len() implies (#[trigger] chain[i]) < arena.len() by {
            if i > 0 {
                assert(chain[i] == rest[i - 1]);
            }
        }
    }
}

/// Where the symbol of a link can span something, so can the rule up to it, and so
/// can the rule's origin.
proof fn lemma_link_grows(
    g: earley_chart::Context,
    arena: Seq<Trans>,
    gr: earley_shape::Ground,
    start: SymbolId,
    f: earley_forest::ForestModel,
    t: int,
    end: usize,
)
    requires
        earley_chart::context_ok(g),
        earley_shape::flags_closed(g),
        earley_shape::labels_ok(g, gr, f),
        is_link(g, gr, start, f, arena, t),
        earley_shape::spans(g, gr, arena[t].recognized, arena[t].key_start),
        arena[t].key_start < end,
    ensures
        earley_shape::label_ok(
            g,
            gr,
            earley_chart::key_at(g, arena[t].red.rule, arena[t].red.dot + 1),
            arena[t].red.origin,
            end,
        ),
        earley_shape::spans(
            g,
            gr,
            g.rules[arena[t].red.rule as int].origin,
            arena[t].red.origin,
        ),
{
    let x = arena[t];
    let e = g.rules[x.red.rule as int].expansion;
    let dot = x.red.dot as int;
    assert(e.len() <= usize::MAX);
    assert(g.rules[x.red.rule as int].expansion[dot].ix() < g.n);
    if x.red.dot > 0 {
        let l = x.red.node->Node_0 as int;
        assert(earley_shape::label_ok(g, gr, f.nodes[l].key, f.nodes[l].start, f.nodes[l].end));
    }
    let front = earley_shape::start_grows(g, x.red.rule, dot);
    let last = analysis::grows(g.rules, g.nt, x.recognized);
    assert(front || earley_shape::start_flagged(g, x.red.rule, dot));
    if front || last {
        earley_shape::lemma_start_grows(g, x.red.rule, dot, front, last);
        lemma_rest_grows(g, x.red.rule, dot + 1);
        assert(e.take(e.len() as int) =~= e);
        analysis::lemma_rule_grows(g.rules, g.nt, x.red.rule as int);
    } else {
        assert(earley_shape::start_flagged(g, x.red.rule, dot + 1));
        assert(earley_paths::all_flagged(g.nullable, e)) by {
            assert forall|j: int| 0 <= j < e.len() implies g.nullable[(
            #[trigger] e[j]).ix() as int] by {
                if j <= dot {
                    assert(g.nullable[g.rules[x.red.rule as int].expansion[j].ix() as int]);
                }
            }
        }
    }
}

/// A rule grows with its beginning, where the rest of it is flagged to derive
/// nothing.
proof fn lemma_rest_grows(g: earley_chart::Context, rule: usize, d: int)
    requires
        earley_chart::context_ok(g),
        earley_shape::flags_closed(g),
        rule < g.rules.len(),
        0 <= d <= g.rules[rule as int].expansion.len(),
        earley_shape::start_grows(g, rule, d),
        forall|j: int|
            d <= j < g.rules[rule as int].expansion.len() ==> g.nullable[(
            #[trigger] g.rules[rule as int].expansion[j]).ix() as int],
    ensures
        earley_shape::start_grows(g, rule, g.rules[rule as int].expansion.len() as int),
    decreases g.rules[rule as int].expansion.len() - d,
{
    if d < g.rules[rule as int].expansion.len() {
        assert(g.nullable[g.rules[rule as int].expansion[d].ix() as int]);
        earley_shape::lemma_start_grows(g, rule, d, true, false);
        lemma_rest_grows(g, rule, d + 1);
    }
}

/// The symbols of a chain can span something, and begin before its end.
proof fn lemma_chain_up(
    g: earley_chart::Context,
    arena: Seq<Trans>,
    gr: earley_shape::Ground,
    start: SymbolId,
    f: earley_forest::ForestModel,
    chain: Seq<usize>,
    end: usize,
    i: int,
)
    requires
        earley_chart::context_ok(g),
        earley_shape::flags_closed(g),
        earley_shape::labels_ok(g, gr, f),
        are_links(g, gr, start, f, arena),
        is_chain(arena, chain),
        0 <= i < chain.len(),
        arena[chain[0] as int].key_start < end,
        earley_shape::spans(
            g,
            gr,
            arena[chain[0] as int].recognized,
            arena[chain[0] as int].key_start,
        ),
    ensures
        arena[chain[i] as int].key_start < end,
        earley_shape::spans(
            g,
            gr,
            arena[chain[i] as int].recognized,
            arena[chain[i] as int].key_start,
        ),
    decreases i,
{
    if i > 0 {
        lemma_chain_up(g, arena, gr, start, f, chain, end, i - 1);
        let t = chain[i - 1] as int;
        assert(is_link(g, gr, start, f, arena, t));
        assert(arena[chain[i - 1] as int].parent == Some(chain[i]));
        lemma_link_grows(g, arena, gr, start, f, t, end);
    }
}

/// A label belongs to one node.
pub proof fn lemma_same_node(f: earley_forest::ForestModel, a: int, b: int)
    requires
        earley_shape::labels_differ(f),
        0 <= a < f.nodes.len(),
        0 <= b < f.nodes.len(),
        earley_forest::labelled(
            f.nodes[a],
            f.nodes[b].key,
            f.nodes[b].start,
            f.nodes[b].end,
        ),
    ensures
        a == b,
{
    if a < b {
        assert(!earley_forest::labelled(
            f.nodes[b],
            f.nodes[a].key,
            f.nodes[a].start,
            f.nodes[a].end,
        ));
    } else if b < a {
        assert(!earley_forest::labelled(
            f.nodes[a],
            f.nodes[b].key,
            f.nodes[b].start,
            f.nodes[b].end,
        ));
    }
}

/// A chain filled in: the node at its top can be built of the node below its
/// first link, and so can every new node.
#[verifier::rlimit(30)]
pub proof fn lemma_chain_made(
    g: earley_chart::Context,
    arena: Seq<Trans>,
    gr: earley_shape::Ground,
    start: SymbolId,
    f: earley_forest::ForestModel,
    k: earley_good::Known,
    root: usize,
    chain: Seq<usize>,
    end: usize,
    bottom: int,
) -> (r: int)
    requires
        earley_chart::context_ok(g),
        earley_fill::flags_true(g),
        fill_state(g, arena, gr, start, f, k, root, end),
        chain.len() > 0,
        is_chain(arena, chain),
        arena[chain[0] as int].key_start < end,
        earley_shape::spans(
            g,
            gr,
            arena[chain[0] as int].recognized,
            arena[chain[0] as int].key_start,
        ),
        earley_shape::uncarried(
            gr,
            g.rules[arena[chain.last() as int].red.rule as int].origin,
            arena[chain.last() as int].red.origin,
            end,
        ),
        unvisited(
            f,
            k,
            NodeKey::Sym(g.rules[arena[chain.last() as int].red.rule as int].origin),
            arena[chain.last() as int].red.origin,
            end,
        ),
        0 <= bottom < f.nodes.len(),
        earley_forest::labelled(
            f.nodes[bottom],
            NodeKey::Sym(arena[chain[0] as int].recognized),
            arena[chain[0] as int].key_start,
            end,
        ),
        earley_shape::within_limits(earley_paths::chain_made(g, f, arena, chain, end)),
    ensures
        ({
            let w = earley_paths::chain_made(g, f, arena, chain, end);
            &&& fill_state(g, arena, gr, start, w, k, root, end)
            &&& earley_shape::grown(f, w)
            &&& 0 <= r < w.nodes.len()
            &&& earley_forest::labelled(
                w.nodes[r],
                NodeKey::Sym(g.rules[arena[chain.last() as int].red.rule as int].origin),
                arena[chain.last() as int].red.origin,
                end,
            )
            &&& earley_good::is_good(w, from_one(k, bottom), r)
            &&& earley_whole::visited_same(f, w, k)
            &&& earley_whole::is_whole(g, arena, f) ==> earley_whole::is_whole(g, arena, w)
                && earley_whole::chain_in(g, arena, w, chain, end)
            &&& forall|x: int|
                f.nodes.len() <= x < w.nodes.len() ==> #[trigger] earley_good::is_good(
                    w,
                    from_one(k, bottom),
                    x,
                )
        }),
    decreases chain.len(),
{
    let n = chain.len() as int;
    let t = chain.last() as int;
    assert(chain[n - 1] < arena.len());
    let x = arena[t];
    let f1 = earley_paths::link_made(g, f, x, end);
    let w = earley_paths::chain_made(g, f, arena, chain, end);
    let front = chain.drop_last();
    lemma_chain_sizes(g, f1, arena, front, end);
    earley_shape::lemma_sizes_limits(f1, w);
    earley_fill::lemma_flags_closed(g);
    lemma_chain_up(g, arena, gr, start, f, chain, end, n - 1);
    let (target, sym) = lemma_link_made(g, arena, gr, start, f, k, root, t, end);
    let one = from_one(k, bottom);
    if n == 1 {
        assert(front.len() == 0);
        assert(w == f1);
        let b = f.nodes[bottom];
        assert(earley_forest::labelled(f1.nodes[bottom], b.key, b.start, b.end));
        lemma_same_node(f1, sym, bottom);
        if earley_whole::is_whole(g, arena, f) {
            earley_shape::lemma_grown_self(w);
            earley_whole::lemma_chain_in_last(g, arena, f1, w, chain, end);
        }
        target
    } else {
        assert(is_link(g, gr, start, f, arena, t));
        lemma_link_unvisited(
            g,
            arena,
            gr,
            start,
            f,
            k,
            root,
            t,
            end,
            x.red.dot + 1,
        );
        lemma_symbol_unvisited(g, arena, gr, start, f, k, root, t, end);
        lemma_unvisited_grown(f, f1, k, NodeKey::Sym(x.recognized), x.key_start, end);
        assert(is_chain(arena, front)) by {
            assert forall|i: int| 0 <= i < front.len() implies (#[trigger] front[i])
                < arena.len() by {
                assert(chain[i] < arena.len());
            }
            assert forall|i: int|
                0 < i < front.len() implies arena[front[i - 1] as int].parent == Some(
                #[trigger] front[i],
            ) by {
                assert(arena[chain[i - 1] as int].parent == Some(chain[i]));
            }
        }
        let u = front.last() as int;
        assert(u == chain[n - 2]);
        assert(chain[n - 2] < arena.len());
        assert(arena[chain[n - 2] as int].parent == Some(chain[n - 1]));
        assert(is_link(g, gr, start, f, arena, u));
        assert(front[0] == chain[0]);
        let b = f.nodes[bottom];
        assert(earley_forest::labelled(f1.nodes[bottom], b.key, b.start, b.end));
        let r = lemma_chain_made(g, arena, gr, start, f1, k, root, front, end, bottom);
        if earley_whole::is_whole(g, arena, f) {
            earley_whole::lemma_chain_in_last(g, arena, f1, w, chain, end);
        }
        earley_whole::lemma_same_trans(f, f1, w, k);
        let s = f1.nodes[sym];
        assert(earley_forest::labelled(w.nodes[sym], s.key, s.start, s.end));
        lemma_same_node(w, sym, r);
        let s1 = f1.nodes[target];
        assert(earley_forest::labelled(w.nodes[target], s1.key, s1.start, s1.end));
        earley_shape::lemma_grown_trans(f, f1, w);
        earley_good::lemma_is_good_grown(f1, w, from_one(k, sym), target);
        earley_good::lemma_is_good_cut(w, from_one(k, sym), one, target);
        assert forall|y: int|
            f.nodes.len() <= y < w.nodes.len() implies #[trigger] earley_good::is_good(
            w,
            one,
            y,
        ) by {
            if y < f1.nodes.len() {
                assert(earley_good::is_good(f1, from_one(k, sym), y));
                earley_good::lemma_is_good_grown(f1, w, from_one(k, sym), y);
                earley_good::lemma_is_good_cut(w, from_one(k, sym), one, y);
            }
        }
        target
    }
}

/// The nodes below the first links of chains.
pub open spec fn bottoms(paths: Seq<(usize, ForestRef, usize)>) -> Set<int> {
    Set::new(
        |y: int|
            exists|i: int|
                0 <= i < paths.len() && (#[trigger] paths[i]).1 is Node && paths[i].1->Node_0 == y,
    )
}

/// A chain filled in: the node where it was cut can be built of the node below
/// its first link, and so can every new node.
pub proof fn lemma_path_made(
    g: earley_chart::Context,
    arena: Seq<Trans>,
    gr: earley_shape::Ground,
    start: SymbolId,
    f: earley_forest::ForestModel,
    k: earley_good::Known,
    root: usize,
    id: int,
    p: (usize, ForestRef, usize),
)
    requires
        earley_chart::context_ok(g),
        earley_fill::flags_true(g),
        arena.len() <= usize::MAX,
        0 <= id < f.nodes.len() <= usize::MAX,
        fill_state(g, arena, gr, start, f, k, root, f.nodes[id].end),
        !k.visited.contains(id as usize),
        earley_shape::is_path(g, gr, arena, f, f.nodes[id], p),
        earley_shape::within_limits(
            earley_paths::chain_made(
                g,
                f,
                arena,
                earley_paths::chain_of(arena, p.0 as int),
                p.2,
            ),
        ),
    ensures
        ({
            let w = earley_paths::chain_made(
                g,
                f,
                arena,
                earley_paths::chain_of(arena, p.0 as int),
                p.2,
            );
            &&& fill_state(g, arena, gr, start, w, k, root, f.nodes[id].end)
            &&& earley_shape::grown(f, w)
            &&& p.1 is Node
            &&& earley_whole::visited_same(f, w, k)
            &&& earley_whole::is_whole(g, arena, f) ==> earley_whole::is_whole(g, arena, w)
                && earley_whole::chain_in(
                g,
                arena,
                w,
                earley_paths::chain_of(arena, p.0 as int),
                p.2,
            )
            &&& earley_good::is_good(w, from_one(k, p.1->Node_0 as int), id)
            &&& forall|x: int|
                f.nodes.len() <= x < w.nodes.len() ==> #[trigger] earley_good::is_good(
                    w,
                    from_one(k, p.1->Node_0 as int),
                    x,
                )
        }),
{
    let end = f.nodes[id].end;
    let chain = earley_paths::chain_of(arena, p.0 as int);
    let w = earley_paths::chain_made(g, f, arena, chain, p.2);
    lemma_chain_of(g, arena, gr, start, f, p.0 as int);
    assert(chain[chain.len() - 1] < arena.len());
    assert(is_link(g, gr, start, f, arena, chain.last() as int));
    let b = p.1->Node_0 as int;
    assert(earley_shape::label_ok(g, gr, f.nodes[b].key, f.nodes[b].start, f.nodes[b].end));
    let d = f.nodes[id];
    assert(unvisited(f, k, d.key, d.start, d.end)) by {
        assert forall|v: usize| #[trigger] k.visited.contains(v) implies !earley_forest::labelled(
            f.nodes[v as int],
            d.key,
            d.start,
            d.end,
        ) by {
            if earley_forest::labelled(f.nodes[v as int], d.key, d.start, d.end) {
                lemma_same_node(f, v as int, id);
            }
        }
    }
    let r = lemma_chain_made(g, arena, gr, start, f, k, root, chain, end, b);
    assert(earley_forest::labelled(w.nodes[id], d.key, d.start, d.end));
    lemma_same_node(w, r, id);
}

/// Chains filled in: the node where they were cut can be built of the node
/// below each, and every new node can be built of those nodes.
#[verifier::rlimit(40)]
pub proof fn lemma_paths_made(
    g: earley_chart::Context,
    arena: Seq<Trans>,
    gr: earley_shape::Ground,
    start: SymbolId,
    f: earley_forest::ForestModel,
    k: earley_good::Known,
    root: usize,
    id: int,
    paths: Seq<(usize, ForestRef, usize)>,
    n: nat,
)
    requires
        earley_chart::context_ok(g),
        earley_fill::flags_true(g),
        arena.len() <= usize::MAX,
        0 <= id < f.nodes.len() <= usize::MAX,
        fill_state(g, arena, gr, start, f, k, root, f.nodes[id].end),
        !k.visited.contains(id as usize),
        forall|i: int|
            0 <= i < paths.len() ==> earley_shape::is_path(
                g,
                gr,
                arena,
                f,
                f.nodes[id],
                #[trigger] paths[i],
            ),
        n <= paths.len(),
        earley_shape::within_limits(earley_paths::paths_made(g, f, arena, paths, n)),
    ensures
        ({
            let w = earley_paths::paths_made(g, f, arena, paths, n);
            &&& fill_state(g, arena, gr, start, w, k, root, f.nodes[id].end)
            &&& earley_shape::grown(f, w)
            &&& earley_whole::visited_same(f, w, k)
            &&& earley_whole::is_whole(g, arena, f) ==> earley_whole::is_whole(g, arena, w)
                && earley_whole::paths_in(g, arena, w, paths, n as int)
            &&& forall|i: int|
                0 <= i < n ==> earley_good::is_good(
                    w,
                    from_one(k, (#[trigger] paths[i]).1->Node_0 as int),
                    id,
                )
            &&& forall|x: int|
                f.nodes.len() <= x < w.nodes.len() ==> #[trigger] earley_good::is_good(
                    w,
                    earley_good::with_given(k, bottoms(paths)),
                    x,
                )
        }),
    decreases n,
{
    if n == 0 {
        earley_shape::lemma_grown_self(f);
        reveal(earley_whole::paths_in);
        reveal(earley_whole::visited_same);
    } else {
        let f1 = earley_paths::paths_made(g, f, arena, paths, (n - 1) as nat);
        let w = earley_paths::paths_made(g, f, arena, paths, n);
        let p = paths[n - 1];
        lemma_chain_sizes(g, f1, arena, earley_paths::chain_of(arena, p.0 as int), p.2);
        earley_shape::lemma_sizes_limits(f1, w);
        lemma_paths_made(
            g,
            arena,
            gr,
            start,
            f,
            k,
            root,
            id,
            paths,
            (n - 1) as nat,
        );
        let d = f.nodes[id];
        assert(earley_forest::labelled(f1.nodes[id], d.key, d.start, d.end));
        assert(earley_shape::is_path(g, gr, arena, f, f.nodes[id], paths[n - 1]));
        earley_shape::lemma_path_grown(g, gr, arena, f, f1, d, f1.nodes[id], p);
        lemma_path_made(g, arena, gr, start, f1, k, root, id, p);
        let b = p.1->Node_0 as int;
        earley_shape::lemma_grown_trans(f, f1, w);
        earley_whole::lemma_same_trans(f, f1, w, k);
        if earley_whole::is_whole(g, arena, f) {
            earley_whole::lemma_paths_in_next(g, arena, f1, w, paths, n as int);
        }
        assert forall|i: int| 0 <= i < n implies earley_good::is_good(
            w,
            from_one(k, (#[trigger] paths[i]).1->Node_0 as int),
            id,
        ) by {
            if i < n - 1 {
                earley_good::lemma_is_good_grown(
                    f1,
                    w,
                    from_one(k, paths[i].1->Node_0 as int),
                    id,
                );
            }
        }
        let all = earley_good::with_given(k, bottoms(paths));
        assert(bottoms(paths).contains(b)) by {
            assert(paths[n - 1].1 is Node);
        }
        earley_good::lemma_given_good(w, all, b);
        assert forall|y: int|
            f.nodes.len() <= y < w.nodes.len() implies #[trigger] earley_good::is_good(
            w,
            all,
            y,
        ) by {
            if y < f1.nodes.len() {
                assert(earley_good::is_good(f1, all, y));
                earley_good::lemma_is_good_grown(f1, w, all, y);
            } else {
                assert(earley_good::is_good(w, from_one(k, b), y));
                earley_good::lemma_is_good_cut(w, from_one(k, b), all, y);
            }
        }
    }
}

} // verus!
