//! A forest that has been filled in is whole: what derives nothing has the families
//! of all of its rules, and chains that were cut short have all of theirs.

use vstd::prelude::*;
use crate::analysis;
use crate::earley_chain;
use crate::earley_chart;
use crate::earley_fill;
use crate::earley_forest;
use crate::earley_forest::{ForestRef, NodeKey, Packed, Trans};
use crate::earley_good;
use crate::earley_led;
use crate::earley_paths;
use crate::earley_shape;
use crate::earley_wired;
use crate::symbols::SymbolId;

verus! {

/// Whether every node of a symbol that spans nothing has the families of all of the
/// symbol's rules that derive nothing.
pub open spec fn nulls_done(g: earley_chart::Context, f: earley_forest::ForestModel) -> bool {
    forall|x: int|
        0 <= x < f.nodes.len() ==> match (#[trigger] f.nodes[x]).key {
            NodeKey::Sym(s) => f.nodes[x].start == f.nodes[x].end ==> earley_fill::finished(
                g,
                f,
                x,
                s,
                f.nodes[x].end,
                g.rules.len() as int,
            ),
            NodeKey::Inter(_r, _d) => true,
        }
}

/// Whether a forest is whole but for chains that were cut short, whose symbols are
/// not terminals.
#[verifier::opaque]
pub open spec fn is_whole(
    g: earley_chart::Context,
    arena: Seq<Trans>,
    f: earley_forest::ForestModel,
) -> bool {
    &&& nulls_done(g, f)
    &&& forall|t: int| 0 <= t < arena.len() ==> (#[trigger] arena[t]).recognized.ix() >= g.nt
}

/// Whether the families of a link are in the forest, at column `end`.
#[verifier::opaque]
pub open spec fn link_in(
    g: earley_chart::Context,
    f: earley_forest::ForestModel,
    x: Trans,
    end: usize,
) -> bool {
    &&& earley_wired::has_part(
        g,
        f,
        x.red.rule as int,
        x.red.dot as int,
        x.red.origin as int,
        x.key_start as int,
        end as int,
    )
    &&& forall|d: int|
        x.red.dot < d < g.rules[x.red.rule as int].expansion.len()
            ==> #[trigger] earley_wired::has_part(
            g,
            f,
            x.red.rule as int,
            d,
            x.red.origin as int,
            end as int,
            end as int,
        )
}

/// Whether the families of the links of a chain are in the forest.
#[verifier::opaque]
pub open spec fn chain_in(
    g: earley_chart::Context,
    arena: Seq<Trans>,
    f: earley_forest::ForestModel,
    chain: Seq<usize>,
    end: usize,
) -> bool {
    forall|i: int|
        0 <= i < chain.len() ==> link_in(g, f, arena[(#[trigger] chain[i]) as int], end)
}

/// The families of a link stay as the forest grows.
pub proof fn lemma_link_in_grown(
    g: earley_chart::Context,
    f: earley_forest::ForestModel,
    h: earley_forest::ForestModel,
    x: Trans,
    end: usize,
)
    requires
        earley_forest::extends(f, h),
        earley_shape::pairs_kept(f, h),
        link_in(g, f, x, end),
    ensures
        link_in(g, h, x, end),
{
    reveal(link_in);
    let r = x.red.rule as int;
    let a = x.red.origin as int;
    earley_wired::lemma_part_grown(
        g,
        f,
        h,
        r,
        x.red.dot as int,
        a,
        x.key_start as int,
        end as int,
    );
    assert forall|d: int| x.red.dot < d < g.rules[x.red.rule as int].expansion.len() implies
        #[trigger] earley_wired::has_part(g, h, r, d, a, end as int, end as int) by {
        earley_wired::lemma_part_grown(g, f, h, r, d, a, end as int, end as int);
    }
}

/// The families of a chain stay as the forest grows.
pub proof fn lemma_chain_in_grown(
    g: earley_chart::Context,
    arena: Seq<Trans>,
    f: earley_forest::ForestModel,
    h: earley_forest::ForestModel,
    chain: Seq<usize>,
    end: usize,
)
    requires
        earley_forest::extends(f, h),
        earley_shape::pairs_kept(f, h),
        chain_in(g, arena, f, chain, end),
    ensures
        chain_in(g, arena, h, chain, end),
{
    reveal(chain_in);
    assert forall|i: int| 0 <= i < chain.len() implies link_in(
        g,
        h,
        arena[(#[trigger] chain[i]) as int],
        end,
    ) by {
        assert(link_in(g, f, arena[chain[i] as int], end));
        lemma_link_in_grown(g, f, h, arena[chain[i] as int], end);
    }
}

/// The families of a chain are those of its links.
pub proof fn lemma_chain_in_last(
    g: earley_chart::Context,
    arena: Seq<Trans>,
    f: earley_forest::ForestModel,
    h: earley_forest::ForestModel,
    chain: Seq<usize>,
    end: usize,
)
    requires
        chain.len() > 0,
        earley_forest::extends(f, h),
        earley_shape::pairs_kept(f, h),
        link_in(g, f, arena[chain.last() as int], end),
        chain.len() == 1 || chain_in(g, arena, h, chain.drop_last(), end),
    ensures
        chain_in(g, arena, h, chain, end),
{
    reveal(chain_in);
    lemma_link_in_grown(g, f, h, arena[chain.last() as int], end);
    assert forall|i: int| 0 <= i < chain.len() implies link_in(
        g,
        h,
        arena[(#[trigger] chain[i]) as int],
        end,
    ) by {
        if i < chain.len() - 1 {
            assert(chain.drop_last()[i] == chain[i]);
        }
    }
}

/// The families of some chains are those of each.
pub proof fn lemma_paths_in_next(
    g: earley_chart::Context,
    arena: Seq<Trans>,
    f: earley_forest::ForestModel,
    h: earley_forest::ForestModel,
    paths: Seq<(usize, ForestRef, usize)>,
    n: int,
)
    requires
        n > 0,
        earley_forest::extends(f, h),
        earley_shape::pairs_kept(f, h),
        paths_in(g, arena, f, paths, n - 1),
        chain_in(
            g,
            arena,
            h,
            earley_paths::chain_of(arena, paths[n - 1].0 as int),
            paths[n - 1].2,
        ),
    ensures
        paths_in(g, arena, h, paths, n),
{
    lemma_paths_in_grown(g, arena, f, h, paths, n - 1);
    reveal(paths_in);
}

/// Whether the families of the first `n` of some chains that were cut short are in
/// the forest.
#[verifier::opaque]
pub open spec fn paths_in(
    g: earley_chart::Context,
    arena: Seq<Trans>,
    f: earley_forest::ForestModel,
    paths: Seq<(usize, ForestRef, usize)>,
    n: int,
) -> bool {
    forall|i: int|
        0 <= i < n ==> chain_in(
            g,
            arena,
            f,
            earley_paths::chain_of(arena, (#[trigger] paths[i]).0 as int),
            paths[i].2,
        )
}

/// The families of chains stay as the forest grows.
pub proof fn lemma_paths_in_grown(
    g: earley_chart::Context,
    arena: Seq<Trans>,
    f: earley_forest::ForestModel,
    h: earley_forest::ForestModel,
    paths: Seq<(usize, ForestRef, usize)>,
    n: int,
)
    requires
        earley_forest::extends(f, h),
        earley_shape::pairs_kept(f, h),
        paths_in(g, arena, f, paths, n),
    ensures
        paths_in(g, arena, h, paths, n),
{
    reveal(paths_in);
    assert forall|i: int| 0 <= i < n implies chain_in(
        g,
        arena,
        h,
        earley_paths::chain_of(arena, (#[trigger] paths[i]).0 as int),
        paths[i].2,
    ) by {
        lemma_chain_in_grown(
            g,
            arena,
            f,
            h,
            earley_paths::chain_of(arena, paths[i].0 as int),
            paths[i].2,
        );
    }
}

/// What derives nothing stays whole as a forest grows, where what is new is whole.
pub proof fn lemma_nulls_grown(
    g: earley_chart::Context,
    f: earley_forest::ForestModel,
    h: earley_forest::ForestModel,
)
    requires
        nulls_done(g, f),
        earley_shape::grown(f, h),
        forall|x: int|
            f.nodes.len() <= x < h.nodes.len() ==> match (#[trigger] h.nodes[x]).key {
                NodeKey::Sym(s) => h.nodes[x].start == h.nodes[x].end ==> earley_fill::finished(
                    g,
                    h,
                    x,
                    s,
                    h.nodes[x].end,
                    g.rules.len() as int,
                ),
                NodeKey::Inter(_r, _d) => true,
            },
    ensures
        nulls_done(g, h),
{
    assert forall|x: int| 0 <= x < h.nodes.len() implies match (#[trigger] h.nodes[x]).key {
        NodeKey::Sym(s) => h.nodes[x].start == h.nodes[x].end ==> earley_fill::finished(
            g,
            h,
            x,
            s,
            h.nodes[x].end,
            g.rules.len() as int,
        ),
        NodeKey::Inter(_r, _d) => true,
    } by {
        if x < f.nodes.len() {
            let n = f.nodes[x];
            assert(earley_forest::labelled(h.nodes[x], n.key, n.start, n.end));
            if let NodeKey::Sym(s) = n.key {
                if n.start == n.end {
                    earley_fill::lemma_finished_grown(
                        g,
                        f,
                        h,
                        x,
                        s,
                        n.end,
                        g.rules.len() as int,
                    );
                }
            }
        }
    }
}

/// The symbols at the end of a rule leave the forest whole, and have their families.
#[verifier::spinoff_prover]
#[verifier::rlimit(80)]
pub proof fn lemma_tail_whole(
    g: earley_chart::Context,
    arena: Seq<Trans>,
    gr: earley_shape::Ground,
    f: earley_forest::ForestModel,
    k: earley_good::Known,
    rule: usize,
    origin: usize,
    end: usize,
    prev: int,
    from: nat,
    pos: nat,
)
    requires
        earley_chart::context_ok(g),
        earley_fill::flags_true(g),
        earley_shape::in_shape(g, arena, gr, f),
        earley_chain::lower_good(f, k, end),
        earley_chain::visited_in(f, k),
        rule < g.rules.len(),
        0 < from <= pos <= g.rules[rule as int].expansion.len(),
        origin < end,
        0 <= prev < f.nodes.len(),
        earley_forest::labelled(
            f.nodes[prev],
            earley_chart::key_at(g, rule, from as int),
            origin,
            end,
        ),
        forall|d: int|
            from < d <= pos ==> earley_chain::unvisited(
                f,
                k,
                #[trigger] earley_chart::key_at(g, rule, d),
                origin,
                end,
            ),
        forall|j: int|
            from <= j < g.rules[rule as int].expansion.len()
                ==> g.nullable[(#[trigger] g.rules[rule as int].expansion[j]).ix() as int],
        earley_shape::within_limits(
            earley_paths::tail_made(g, f, rule, origin, end, prev, from, pos).0,
        ),
        nulls_done(g, f),
    ensures
        ({
            let w = earley_paths::tail_made(g, f, rule, origin, end, prev, from, pos).0;
            &&& nulls_done(g, w)
            &&& forall|d: int|
                from <= d < pos ==> #[trigger] earley_wired::has_part(
                    g,
                    w,
                    rule as int,
                    d,
                    origin as int,
                    end as int,
                    end as int,
                )
        }),
    decreases pos,
{
    if pos > from {
        earley_fill::lemma_flags_closed(g);
        let e = g.rules[rule as int].expansion;
        let s = e[pos - 1];
        assert(g.rules[rule as int].origin.ix() >= g.nt && e.len() <= usize::MAX);
        assert(g.rules[rule as int].expansion[pos - 1].ix() < g.n);
        assert(g.nullable[g.rules[rule as int].expansion[pos - 1].ix() as int]);
        let (f1, p1) = earley_paths::tail_made(
            g,
            f,
            rule,
            origin,
            end,
            prev,
            from,
            (pos - 1) as nat,
        );
        let blank = Seq::new(g.n, |i: int| false);
        let (f2, eps, b) = earley_paths::eps_made(g, f1, s, end, blank, g.n + 1);
        let key = earley_chart::key_at(g, rule, pos as int);
        let (f3, next) = earley_forest::got(f2, key, origin, end);
        let p = Packed {
            rule,
            left: ForestRef::Node(p1 as usize),
            right: ForestRef::Node(eps as usize),
            right_pos: (pos - 1) as usize,
        };
        let order = g.rules[rule as int].order;
        let w = earley_paths::tail_made(g, f, rule, origin, end, prev, from, pos).0;
        assert(w == earley_forest::family_added(f3, next, p, order));
        earley_shape::lemma_entry_only(f2, key, origin, end, p, order);
        earley_shape::lemma_sizes_limits(f2, w);
        earley_fill::lemma_eps_sizes(g, f1, s, end, blank, g.n + 1);
        earley_shape::lemma_sizes_limits(f1, f2);
        lemma_tail_whole(
            g,
            arena,
            gr,
            f,
            k,
            rule,
            origin,
            end,
            prev,
            from,
            (pos - 1) as nat,
        );
        earley_chain::lemma_tail_made(
            g,
            arena,
            gr,
            f,
            k,
            rule,
            origin,
            end,
            prev,
            from,
            (pos - 1) as nat,
        );
        earley_chain::lemma_lower_filled(g, arena, gr, f1, k, end, end);
        earley_shape::lemma_grown_self(f1);
        assert(earley_fill::eps_state(g, arena, gr, f1, f1, end, blank, Set::empty()));
        earley_paths::lemma_missing_bound(blank);
        earley_fill::lemma_eps_made(
            g,
            arena,
            gr,
            f1,
            f1,
            s,
            end,
            blank,
            Set::empty(),
            g.n + 1,
        );
        assert forall|x: int| f1.nodes.len() <= x < f2.nodes.len() implies match (
        #[trigger] f2.nodes[x]).key {
            NodeKey::Sym(z) => f2.nodes[x].start == f2.nodes[x].end ==> earley_fill::finished(
                g,
                f2,
                x,
                z,
                f2.nodes[x].end,
                g.rules.len() as int,
            ),
            NodeKey::Inter(_r, _d) => true,
        } by {
            assert(earley_fill::is_new_eps(g, f2, x, end, b, Set::empty()));
        }
        lemma_nulls_grown(g, f1, f2);
        earley_shape::lemma_at_grown(
            f1,
            f2,
            p.left,
            earley_chart::key_at(g, rule, pos - 1),
            origin,
            end,
        );
        let n = earley_forest::bare_node(key, origin, end);
        assert(earley_shape::is_family(g, gr, f2, n, p));
        earley_shape::lemma_entry_shape(g, arena, gr, f2, key, origin, end, p, order);
        earley_forest::lemma_find_node(f2.nodes, key, origin, end, 0);
        lemma_nulls_grown(g, f2, w);
        assert(earley_shape::eps_kept(f3));
        earley_led::lemma_family_in(f3, next, p, order);
        earley_shape::lemma_at_grown(
            f2,
            w,
            p.left,
            earley_chart::key_at(g, rule, pos - 1),
            origin,
            end,
        );
        earley_shape::lemma_at_grown(f2, w, p.right, NodeKey::Sym(s), end, end);
        assert(s.ix() >= g.nt) by {
            let none = Seq::<SymbolId>::empty();
            assert(analysis::nullable(g.rules, g.nt, s));
            let d = choose|d: nat| #[trigger] analysis::derives_sym(g.rules, g.nt, s, none, d);
            assert(none.len() != seq![s].len());
        }
        assert(earley_wired::is_part(
            g,
            w,
            rule as int,
            pos - 1,
            origin as int,
            end as int,
            end as int,
            next,
            p.left,
            p.right,
        ));
        earley_shape::lemma_grown_trans(f1, f2, w);
        assert forall|d: int| from <= d < pos implies #[trigger] earley_wired::has_part(
            g,
            w,
            rule as int,
            d,
            origin as int,
            end as int,
            end as int,
        ) by {
            if d < pos - 1 {
                earley_wired::lemma_part_grown(
                    g,
                    f1,
                    w,
                    rule as int,
                    d,
                    origin as int,
                    end as int,
                    end as int,
                );
            }
        }
    }
}

/// Taking cut chains away leaves a forest whole.
pub proof fn lemma_whole_taken(
    g: earley_chart::Context,
    arena: Seq<Trans>,
    f: earley_forest::ForestModel,
    id: int,
)
    requires
        is_whole(g, arena, f),
        0 <= id < f.nodes.len(),
    ensures
        is_whole(g, arena, earley_forest::paths_taken(f, id)),
{
    reveal(is_whole);
    let h = earley_forest::paths_taken(f, id);
    assert forall|x: int| 0 <= x < h.nodes.len() implies match (#[trigger] h.nodes[x]).key {
        NodeKey::Sym(s) => h.nodes[x].start == h.nodes[x].end ==> earley_fill::finished(
            g,
            h,
            x,
            s,
            h.nodes[x].end,
            g.rules.len() as int,
        ),
        NodeKey::Inter(_r, _d) => true,
    } by {
        let n = f.nodes[x];
        if let NodeKey::Sym(s) = n.key {
            if n.start == n.end {
                assert(earley_fill::finished(g, f, x, s, n.end, g.rules.len() as int));
                earley_fill::lemma_finished_kept(g, f, h, x, s, n.end, g.rules.len() as int);
            }
        }
    }
}

// ---------------------------------------------------------------------------
// What stays as it is

/// Whether the nodes of a forest that span something keep their families.
pub open spec fn wide_same(
    f: earley_forest::ForestModel,
    h: earley_forest::ForestModel,
) -> bool {
    &&& f.nodes.len() <= h.nodes.len()
    &&& forall|x: int|
        0 <= x < f.nodes.len() ==> earley_forest::labelled(
            #[trigger] h.nodes[x],
            f.nodes[x].key,
            f.nodes[x].start,
            f.nodes[x].end,
        ) && (f.nodes[x].start < f.nodes[x].end ==> h.nodes[x].families == f.nodes[x].families)
}

/// Whether the visited nodes that span something keep their families.
#[verifier::opaque]
pub open spec fn visited_same(
    f: earley_forest::ForestModel,
    h: earley_forest::ForestModel,
    k: earley_good::Known,
) -> bool {
    forall|v: usize| #[trigger]
        k.visited.contains(v) && v < f.nodes.len() && f.nodes[v as int].start
            < f.nodes[v as int].end ==> h.nodes[v as int].families == f.nodes[v as int].families
}

/// Families that are kept on and on are kept.
pub proof fn lemma_same_trans(
    f: earley_forest::ForestModel,
    h: earley_forest::ForestModel,
    w: earley_forest::ForestModel,
    k: earley_good::Known,
)
    requires
        earley_forest::extends(f, h),
        visited_same(f, h, k),
        visited_same(h, w, k),
    ensures
        visited_same(f, w, k),
{
    reveal(visited_same);
    assert forall|v: usize| #[trigger]
        k.visited.contains(v) && v < f.nodes.len() && f.nodes[v as int].start
            < f.nodes[v as int].end implies w.nodes[v as int].families
        == f.nodes[v as int].families by {
        let n = f.nodes[v as int];
        assert(earley_forest::labelled(h.nodes[v as int], n.key, n.start, n.end));
    }
}

proof fn lemma_entry_wide(
    f: earley_forest::ForestModel,
    key: NodeKey,
    col: usize,
    p: Packed,
    order: usize,
)
    ensures
        wide_same(f, earley_forest::got(f, key, col, col).0),
        wide_same(
            f,
            earley_forest::family_added(
                earley_forest::got(f, key, col, col).0,
                earley_forest::got(f, key, col, col).1,
                p,
                order,
            ),
        ),
{
    earley_forest::lemma_find_node(f.nodes, key, col, col, 0);
}

/// Filling in what derives nothing leaves what spans something as it is.
proof fn lemma_eps_wide(
    g: earley_chart::Context,
    f: earley_forest::ForestModel,
    sym: SymbolId,
    col: usize,
    building: Seq<bool>,
    fuel: nat,
)
    ensures
        ({
            let (w, id, b) = earley_paths::eps_made(g, f, sym, col, building, fuel);
            &&& wide_same(f, w)
            &&& 0 <= id < w.nodes.len()
            &&& earley_forest::labelled(w.nodes[id], NodeKey::Sym(sym), col, col)
        }),
    decreases fuel, 0nat, 0nat,
{
    let (f1, id) = earley_forest::got(f, NodeKey::Sym(sym), col, col);
    earley_forest::lemma_find_node(f.nodes, NodeKey::Sym(sym), col, col, 0);
    if !(f1.nodes[id].families.len() > 0 || sym.ix() >= building.len()
        || building[sym.ix() as int] || fuel == 0) {
        lemma_rules_wide(
            g,
            f1,
            sym,
            id,
            col,
            building.update(sym.ix() as int, true),
            g.rules.len(),
            (fuel - 1) as nat,
        );
    }
}

proof fn lemma_rules_wide(
    g: earley_chart::Context,
    f: earley_forest::ForestModel,
    sym: SymbolId,
    id: int,
    col: usize,
    building: Seq<bool>,
    k: nat,
    fuel: nat,
)
    requires
        0 <= id < f.nodes.len(),
        earley_forest::labelled(f.nodes[id], NodeKey::Sym(sym), col, col),
    ensures
        wide_same(f, earley_paths::eps_rules(g, f, sym, id, col, building, k, fuel).0),
    decreases fuel, 2nat, k,
{
    if k > 0 {
        lemma_rules_wide(g, f, sym, id, col, building, (k - 1) as nat, fuel);
        let (f1, b1) = earley_paths::eps_rules(
            g,
            f,
            sym,
            id,
            col,
            building,
            (k - 1) as nat,
            fuel,
        );
        assert(earley_forest::labelled(f1.nodes[id], NodeKey::Sym(sym), col, col));
        let r = g.rules[k - 1];
        if r.expansion.len() > 0 {
            lemma_parts_wide(g, f1, (k - 1) as usize, col, b1, r.expansion.len(), fuel);
        }
    }
}

proof fn lemma_parts_wide(
    g: earley_chart::Context,
    f: earley_forest::ForestModel,
    rule: usize,
    col: usize,
    building: Seq<bool>,
    pos: nat,
    fuel: nat,
)
    ensures
        wide_same(f, earley_paths::eps_parts(g, f, rule, col, building, pos, fuel).0),
    decreases fuel, 1nat, pos,
{
    if pos > 0 {
        lemma_parts_wide(g, f, rule, col, building, (pos - 1) as nat, fuel);
        let (f1, left, b1) = earley_paths::eps_parts(
            g,
            f,
            rule,
            col,
            building,
            (pos - 1) as nat,
            fuel,
        );
        let s = g.rules[rule as int].expansion[pos - 1];
        lemma_eps_wide(g, f1, s, col, b1, fuel);
        let (f2, child, b2) = earley_paths::eps_made(g, f1, s, col, b1, fuel);
        lemma_entry_wide(
            f2,
            earley_paths::key_of(g, rule, pos as int),
            col,
            Packed {
                rule,
                left,
                right: ForestRef::Node(child as usize),
                right_pos: (pos - 1) as usize,
            },
            g.rules[rule as int].order,
        );
    }
}

/// The symbols at the end of a rule leave what was visited as it is.
proof fn lemma_tail_same(
    g: earley_chart::Context,
    f: earley_forest::ForestModel,
    k: earley_good::Known,
    rule: usize,
    origin: usize,
    end: usize,
    prev: int,
    from: nat,
    pos: nat,
)
    requires
        earley_chain::visited_in(f, k),
        forall|d: int|
            from < d <= pos ==> earley_chain::unvisited(
                f,
                k,
                #[trigger] earley_chart::key_at(g, rule, d),
                origin,
                end,
            ),
    ensures
        visited_same(
            f,
            earley_paths::tail_made(g, f, rule, origin, end, prev, from, pos).0,
            k,
        ),
        ({
            let w = earley_paths::tail_made(g, f, rule, origin, end, prev, from, pos).0;
            &&& f.nodes.len() <= w.nodes.len()
            &&& forall|x: int|
                0 <= x < f.nodes.len() ==> earley_forest::labelled(
                    #[trigger] w.nodes[x],
                    f.nodes[x].key,
                    f.nodes[x].start,
                    f.nodes[x].end,
                )
        }),
    decreases pos,
{
    reveal(visited_same);
    if pos > from {
        lemma_tail_same(g, f, k, rule, origin, end, prev, from, (pos - 1) as nat);
        let (f1, p1) = earley_paths::tail_made(
            g,
            f,
            rule,
            origin,
            end,
            prev,
            from,
            (pos - 1) as nat,
        );
        let s = g.rules[rule as int].expansion[pos - 1];
        let blank = Seq::new(g.n, |i: int| false);
        lemma_eps_wide(g, f1, s, end, blank, g.n + 1);
        let (f2, eps, b) = earley_paths::eps_made(g, f1, s, end, blank, g.n + 1);
        let key = earley_chart::key_at(g, rule, pos as int);
        earley_forest::lemma_find_node(f2.nodes, key, origin, end, 0);
        let (f3, next) = earley_forest::got(f2, key, origin, end);
        assert(earley_chain::unvisited(
            f,
            k,
            earley_chart::key_at(g, rule, pos as int),
            origin,
            end,
        ));
        let w = earley_paths::tail_made(g, f, rule, origin, end, prev, from, pos).0;
        assert forall|v: usize| #[trigger]
            k.visited.contains(v) && v < f.nodes.len() && f.nodes[v as int].start
                < f.nodes[v as int].end implies w.nodes[v as int].families
            == f.nodes[v as int].families by {
            let n = f.nodes[v as int];
            assert(earley_forest::labelled(f1.nodes[v as int], n.key, n.start, n.end));
            assert(earley_forest::labelled(f2.nodes[v as int], n.key, n.start, n.end));
            assert(v != next);
        }
        assert forall|x: int| 0 <= x < f.nodes.len() implies earley_forest::labelled(
            #[trigger] w.nodes[x],
            f.nodes[x].key,
            f.nodes[x].start,
            f.nodes[x].end,
        ) by {
            let n = f.nodes[x];
            assert(earley_forest::labelled(f1.nodes[x], n.key, n.start, n.end));
            assert(earley_forest::labelled(f2.nodes[x], n.key, n.start, n.end));
        }
    }
}

/// A link filled in leaves what was visited as it is.
pub proof fn lemma_link_same(
    g: earley_chart::Context,
    f: earley_forest::ForestModel,
    k: earley_good::Known,
    x: Trans,
    end: usize,
)
    requires
        earley_chain::visited_in(f, k),
        x.red.dot < g.rules[x.red.rule as int].expansion.len(),
        forall|d: int|
            x.red.dot < d <= g.rules[x.red.rule as int].expansion.len()
                ==> earley_chain::unvisited(
                f,
                k,
                #[trigger] earley_chart::key_at(g, x.red.rule, d),
                x.red.origin,
                end,
            ),
    ensures
        visited_same(f, earley_paths::link_made(g, f, x, end), k),
{
    let key = earley_chart::key_at(g, x.red.rule, x.red.dot + 1);
    let (f1, prev) = earley_forest::got(f, key, x.red.origin, end);
    earley_forest::lemma_find_node(f.nodes, key, x.red.origin, end, 0);
    let (f2, right) = earley_forest::got(f1, NodeKey::Sym(x.recognized), x.key_start, end);
    earley_forest::lemma_find_node(
        f1.nodes,
        NodeKey::Sym(x.recognized),
        x.key_start,
        end,
        0,
    );
    let p = earley_chart::moved_family(x.red, ForestRef::Node(right as usize));
    let f3 = earley_forest::family_added(f2, prev, p, g.rules[x.red.rule as int].order);
    assert(earley_chain::unvisited(
        f,
        k,
        earley_chart::key_at(g, x.red.rule, x.red.dot + 1),
        x.red.origin,
        end,
    ));
    assert(earley_forest::extends(f, f3));
    assert forall|d: int| x.red.dot < d <= g.rules[x.red.rule as int].expansion.len() implies
        earley_chain::unvisited(
        f3,
        k,
        #[trigger] earley_chart::key_at(g, x.red.rule, d),
        x.red.origin,
        end,
    ) by {
        earley_chain::lemma_unvisited_grown(
            f,
            f3,
            k,
            earley_chart::key_at(g, x.red.rule, d),
            x.red.origin,
            end,
        );
    }
    lemma_tail_same(
        g,
        f3,
        k,
        x.red.rule,
        x.red.origin,
        end,
        prev,
        (x.red.dot + 1) as nat,
        g.rules[x.red.rule as int].expansion.len(),
    );
    assert(visited_same(f, f3, k)) by {
        reveal(visited_same);
        assert forall|v: usize| #[trigger]
            k.visited.contains(v) && v < f.nodes.len() && f.nodes[v as int].start
                < f.nodes[v as int].end implies f3.nodes[v as int].families
            == f.nodes[v as int].families by {
            assert(v != prev);
        }
    }
    lemma_same_trans(f, f3, earley_paths::link_made(g, f, x, end), k);
}

} // verus!
