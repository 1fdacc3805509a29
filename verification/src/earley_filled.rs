//! The forest of a sentence, filled in, has the families of every derivation.

use vstd::prelude::*;
use crate::analysis;
use crate::earley_chain;
use crate::earley_chart;
use crate::earley_exact;
use crate::earley_fill;
use crate::earley_forest;
use crate::earley_forest::{ForestRef, Item, NodeKey, Trans};
use crate::earley_good;
use crate::earley_led;
use crate::earley_load;
use crate::earley_paths;
use crate::earley_shape;
use crate::earley_sprung;
use crate::earley_whole;
use crate::earley_wired;
use crate::symbols::SymbolId;
use crate::tree;

verus! {

// ---------------------------------------------------------------------------
// Loading

/// Whether every node of a forest ends at column `e` or before.
pub open spec fn ends_by(f: earley_forest::ForestModel, e: usize) -> bool {
    forall|x: int| 0 <= x < f.nodes.len() ==> (#[trigger] f.nodes[x]).end <= e
}

/// Whether a forest on its way to being filled in is whole, and has the families of
/// the chains that were cut short at the nodes visited; `f` is the forest of the
/// chart.
pub open spec fn load_whole(
    g: earley_chart::Context,
    arena: Seq<Trans>,
    f: earley_forest::ForestModel,
    s: earley_paths::Loading,
) -> bool {
    &&& earley_whole::is_whole(g, arena, s.forest)
    &&& is_closed(s)
    &&& forall|e: usize| #[trigger] ends_by(f, e) ==> ends_by(s.forest, e)
    &&& earley_forest::extends(f, s.forest)
    &&& earley_shape::pairs_kept(f, s.forest)
    &&& forall|v: int|
        0 <= v < f.nodes.len() ==> if s.visited.contains(v as usize) {
            earley_whole::paths_in(
                g,
                arena,
                s.forest,
                (#[trigger] f.nodes[v]).paths,
                f.nodes[v].paths.len() as int,
            )
        } else {
            s.forest.nodes[v].paths == f.nodes[v].paths
        }
}

/// Whether the parts of the families of visited nodes are visited, or to be visited.
pub open spec fn is_closed(s: earley_paths::Loading) -> bool {
    forall|v: usize, j: int, c: usize|
        #![trigger s.visited.contains(v), earley_chain::refers(s.forest.nodes[v as int].families[j], c)]
        s.visited.contains(v) && 0 <= j < s.forest.nodes[v as int].families.len()
            && earley_chain::refers(s.forest.nodes[v as int].families[j], c)
            ==> s.visited.contains(c) || s.stack.contains(c)
}

/// The parts of a family of a visited node that spans nothing are those of a family
/// that it had.
proof fn lemma_null_closed(
    g: earley_chart::Context,
    arena: Seq<Trans>,
    gr: earley_shape::Ground,
    start: SymbolId,
    s: earley_paths::Loading,
    root: usize,
    w: earley_forest::ForestModel,
    v: usize,
    j: int,
    c: usize,
)
    requires
        earley_chart::context_ok(g),
        earley_fill::flags_true(g),
        earley_load::load_state(g, arena, gr, start, s, root),
        !gr.loose,
        earley_whole::is_whole(g, arena, s.forest),
        is_closed(s),
        earley_shape::in_shape(g, arena, gr, w),
        earley_forest::extends(s.forest, w),
        s.visited.contains(v),
        v < s.forest.nodes.len(),
        s.forest.nodes[v as int].start == s.forest.nodes[v as int].end,
        0 <= j < w.nodes[v as int].families.len(),
        earley_chain::refers(w.nodes[v as int].families[j], c),
    ensures
        s.visited.contains(c) || s.stack.contains(c),
{
    let f = s.forest;
    let k = earley_load::known_of(s);
    let n = f.nodes[v as int];
    let col = n.end;
    let p = w.nodes[v as int].families[j];
    let r = p.rule as int;
    let e = g.rules[r].expansion;
    assert(earley_forest::labelled(w.nodes[v as int], n.key, n.start, n.end));
    assert(earley_shape::is_family(g, gr, w, w.nodes[v as int], p));
    assert(g.rules[r].origin.ix() >= g.nt && e.len() <= usize::MAX);
    let d = p.right_pos as int;
    let o = p.right->Node_0 as int;
    assert(earley_shape::label_ok(g, gr, w.nodes[o].key, w.nodes[o].start, w.nodes[o].end));
    let i: int;
    match n.key {
        NodeKey::Inter(rule, dot) => {
            assert(earley_good::is_good(f, k, v as int));
            let b = choose|b: nat| #[trigger] earley_good::good(f, k, v as int, b);
            assert(f.nodes[v as int].paths.len() == 0);
            i = choose|i: int|
                0 <= i < f.nodes[v as int].families.len() && earley_good::led(
                    f,
                    k,
                    v as int,
                    (#[trigger] f.nodes[v as int].families[i]).left,
                    (b - 1) as nat,
                ) && earley_good::led(
                    f,
                    k,
                    v as int,
                    f.nodes[v as int].families[i].right,
                    (b - 1) as nat,
                );
            let q = f.nodes[v as int].families[i];
            assert(earley_shape::is_family(g, gr, f, f.nodes[v as int], q));
            assert(q.rule == p.rule && q.right_pos == p.right_pos);
        },
        NodeKey::Sym(sym) => {
            assert(earley_whole::nulls_done(g, f)) by {
                reveal(earley_whole::is_whole);
            }
            assert(earley_fill::finished(g, f, v as int, sym, col, g.rules.len() as int));
            assert(d + 1 == e.len());
            if d > 0 {
                let l = p.left->Node_0 as int;
                assert(earley_shape::label_ok(
                    g,
                    gr,
                    w.nodes[l].key,
                    w.nodes[l].start,
                    w.nodes[l].end,
                ));
            }
            assert(earley_paths::all_flagged(g.nullable, e)) by {
                assert forall|z: int| 0 <= z < e.len() implies g.nullable[(
                #[trigger] e[z]).ix() as int] by {
                    if z < d {
                        assert(g.nullable[g.rules[r].expansion[z].ix() as int]);
                    }
                }
            }
            assert(g.rules[r].origin == sym);
            assert(earley_fill::rule_in(g, f, v as int, r, e.len() as int, col));
            i = choose|i: int|
                0 <= i < f.nodes[v as int].families.len() && earley_fill::fits(
                    g,
                    f,
                    (#[trigger] f.nodes[v as int].families[i]).left,
                    f.nodes[v as int].families[i].right,
                    r,
                    e.len() as int,
                    col,
                );
        },
    }
    let q = f.nodes[v as int].families[i];
    let y = q.right->Node_0 as int;
    assert(earley_forest::labelled(
        w.nodes[y],
        f.nodes[y].key,
        f.nodes[y].start,
        f.nodes[y].end,
    ));
    earley_chain::lemma_same_node(w, o, y);
    if d > 0 {
        let a = p.left->Node_0 as int;
        let b = q.left->Node_0 as int;
        assert(earley_forest::labelled(
            w.nodes[b],
            f.nodes[b].key,
            f.nodes[b].start,
            f.nodes[b].end,
        ));
        earley_chain::lemma_same_node(w, a, b);
    }
    assert(earley_chain::refers(s.forest.nodes[v as int].families[i], c));
}

proof fn lemma_pairs_trans(
    f: earley_forest::ForestModel,
    h: earley_forest::ForestModel,
    w: earley_forest::ForestModel,
)
    requires
        earley_forest::extends(f, h),
        earley_forest::extends(h, w),
        earley_shape::pairs_kept(f, h),
        earley_shape::pairs_kept(h, w),
    ensures
        earley_forest::extends(f, w),
        earley_shape::pairs_kept(f, w),
{
    assert forall|i: int, k: int|
        0 <= i < f.nodes.len() && 0 <= k < f.nodes[i].families.len() implies
        earley_forest::has_pair(
        w.nodes[i].families,
        (#[trigger] f.nodes[i].families[k]).left,
        f.nodes[i].families[k].right,
    ) by {
        let p = f.nodes[i].families[k];
        earley_led::lemma_pair_grown(h, w, i, p.left, p.right);
    }
    assert forall|i: int| 0 <= i < f.nodes.len() implies earley_forest::labelled(
        #[trigger] w.nodes[i],
        f.nodes[i].key,
        f.nodes[i].start,
        f.nodes[i].end,
    ) by {
        let n = h.nodes[i];
        assert(earley_forest::labelled(w.nodes[i], n.key, n.start, n.end));
    }
}

/// A first visit leaves the parts of visited nodes visited, or to be visited.
#[verifier::rlimit(20)]
proof fn lemma_first_closed(
    g: earley_chart::Context,
    arena: Seq<Trans>,
    gr: earley_shape::Ground,
    start: SymbolId,
    s: earley_paths::Loading,
    root: usize,
)
    requires
        earley_chart::context_ok(g),
        earley_fill::flags_true(g),
        earley_load::load_state(g, arena, gr, start, s, root),
        !gr.loose,
        earley_whole::is_whole(g, arena, s.forest),
        is_closed(s),
        s.stack.len() > 0,
        !s.visited.contains(s.stack.last()),
        s.stack.last() < s.forest.nodes.len(),
        ({
            let w = earley_paths::load_step(g, arena, s).forest;
            let h = earley_forest::paths_taken(s.forest, s.stack.last() as int);
            &&& earley_shape::in_shape(g, arena, gr, w)
            &&& earley_forest::extends(s.forest, w)
            &&& earley_whole::visited_same(h, w, earley_load::known_of(s))
        }),
    ensures
        is_closed(earley_paths::load_step(g, arena, s)),
{
    let t = earley_paths::load_step(g, arena, s);
    let id = s.stack.last();
    let z = s.forest;
    let w = t.forest;
    let h = earley_forest::paths_taken(z, id as int);
    let k = earley_load::known_of(s);
    let families = w.nodes[id as int].families;
    let children = earley_paths::children_of(families, families.len());
    earley_load::lemma_children(families, families.len());
    assert forall|c: usize| s.stack.contains(c) implies t.stack.contains(c) || c == id by {
        let i = choose|i: int| 0 <= i < s.stack.len() && s.stack[i] == c;
        if i < s.stack.len() - 1 {
            assert(t.stack[i] == c);
        }
    }
    assert forall|c: usize| children.contains(c) implies t.stack.contains(c) by {
        let i = choose|i: int| 0 <= i < children.len() && children[i] == c;
        assert(t.stack[s.stack.len() - 1 + i] == c);
    }
    assert forall|c: usize| #[trigger] t.visited.contains(c) implies s.visited.contains(c) || c
        == id by {
        let i = choose|i: int| 0 <= i < t.visited.len() && t.visited[i] == c;
        if i < s.visited.len() {
            assert(s.visited[i] == c);
        }
    }
    assert forall|c: usize| #[trigger] s.visited.contains(c) implies t.visited.contains(c) by {
        let i = choose|i: int| 0 <= i < s.visited.len() && s.visited[i] == c;
        assert(t.visited[i] == c);
    }
    assert(t.visited.contains(id)) by {
        assert(t.visited[s.visited.len() as int] == id);
    }
    reveal(earley_whole::visited_same);
    assert forall|v: usize, j: int, c: usize|
        #![trigger t.visited.contains(v), earley_chain::refers(w.nodes[v as int].families[j], c)]
        t.visited.contains(v) && 0 <= j < w.nodes[v as int].families.len()
            && earley_chain::refers(w.nodes[v as int].families[j], c) implies t.visited.contains(c)
        || t.stack.contains(c) by {
        if v == id {
            assert(earley_chain::refers(families[j], c));
            assert(children.contains(c));
        } else {
            assert(s.visited.contains(v));
            assert(k.visited.contains(v));
            assert(v < z.nodes.len());
            assert(h.nodes[v as int] == z.nodes[v as int]);
            let n = z.nodes[v as int];
            assert(earley_shape::label_ok(g, gr, n.key, n.start, n.end));
            if n.start < n.end {
                assert(w.nodes[v as int].families == z.nodes[v as int].families);
                assert(earley_chain::refers(s.forest.nodes[v as int].families[j], c));
            } else {
                lemma_null_closed(g, arena, gr, start, s, root, w, v, j, c);
            }
            if s.visited.contains(c) {
                assert(t.visited.contains(c));
            }
        }
    }
}

/// A first visit leaves a forest whole.
proof fn lemma_first_whole(
    g: earley_chart::Context,
    arena: Seq<Trans>,
    gr: earley_shape::Ground,
    start: SymbolId,
    f: earley_forest::ForestModel,
    s: earley_paths::Loading,
    root: usize,
)
    requires
        earley_chart::context_ok(g),
        earley_fill::flags_true(g),
        arena.len() <= usize::MAX,
        earley_load::load_state(g, arena, gr, start, s, root),
        load_whole(g, arena, f, s),
        !gr.loose,
        s.stack.len() > 0,
        !s.visited.contains(s.stack.last()),
        earley_shape::within_limits(earley_paths::load_step(g, arena, s).forest),
    ensures
        load_whole(g, arena, f, earley_paths::load_step(g, arena, s)),
{
    let t = earley_paths::load_step(g, arena, s);
    let id = s.stack.last();
    let z = s.forest;
    let w = t.forest;
    let h = earley_forest::paths_taken(z, id as int);
    assert(s.stack.contains(id)) by {
        assert(s.stack[s.stack.len() - 1] == id);
    }
    let paths = z.nodes[id as int].paths;
    if paths.len() > 0 {
        earley_load::lemma_materialized(g, arena, gr, start, s, root, id as int);
    } else {
        assert(paths =~= Seq::empty());
        assert(h.nodes =~= z.nodes);
        assert(w == z);
        earley_shape::lemma_grown_self(z);
        assert(earley_whole::paths_in(g, arena, w, paths, 0)) by {
            reveal(earley_whole::paths_in);
        }
        assert(earley_whole::visited_same(h, w, earley_load::known_of(s))) by {
            reveal(earley_whole::visited_same);
        }
    }
    assert(earley_forest::extends(z, h));
    assert(earley_shape::pairs_kept(z, h)) by {
        assert forall|i: int, k: int|
            0 <= i < z.nodes.len() && 0 <= k < z.nodes[i].families.len() implies
            earley_forest::has_pair(
            h.nodes[i].families,
            (#[trigger] z.nodes[i].families[k]).left,
            z.nodes[i].families[k].right,
        ) by {
            assert(h.nodes[i].families == z.nodes[i].families);
            assert(h.nodes[i].families[k].left == z.nodes[i].families[k].left);
        }
    }
    lemma_pairs_trans(z, h, w);
    lemma_pairs_trans(f, z, w);
    assert forall|c: usize| #[trigger] t.visited.contains(c) implies s.visited.contains(c) || c
        == id by {
        let i = choose|i: int| 0 <= i < t.visited.len() && t.visited[i] == c;
        if i < s.visited.len() {
            assert(s.visited[i] == c);
        }
    }
    assert forall|c: usize| #[trigger] s.visited.contains(c) implies t.visited.contains(c) by {
        let i = choose|i: int| 0 <= i < s.visited.len() && s.visited[i] == c;
        assert(t.visited[i] == c);
    }
    assert(t.visited.contains(id)) by {
        assert(t.visited[s.visited.len() as int] == id);
    }
    lemma_first_closed(g, arena, gr, start, s, root);
    earley_chain::lemma_paths_sizes(g, h, arena, paths, paths.len());
    assert forall|e: usize| #[trigger] ends_by(f, e) implies ends_by(w, e) by {
        assert(ends_by(z, e));
        assert forall|j: int| 0 <= j < paths.len() implies (#[trigger] paths[j]).2 <= e by {
            assert(earley_shape::is_path(
                g,
                gr,
                arena,
                z,
                z.nodes[id as int],
                z.nodes[id as int].paths[j],
            ));
        }
        assert(earley_shape::new_to(h, w, e));
        assert forall|x: int| 0 <= x < w.nodes.len() implies (#[trigger] w.nodes[x]).end <= e by {
            if x < z.nodes.len() {
                let o = z.nodes[x];
                assert(earley_forest::labelled(w.nodes[x], o.key, o.start, o.end));
            }
        }
    }
    assert forall|v: int| 0 <= v < f.nodes.len() implies if t.visited.contains(v as usize) {
        earley_whole::paths_in(
            g,
            arena,
            w,
            (#[trigger] f.nodes[v]).paths,
            f.nodes[v].paths.len() as int,
        )
    } else {
        w.nodes[v].paths == f.nodes[v].paths
    } by {
        if v == id {
            assert(f.nodes[v].paths == paths);
        } else if s.visited.contains(v as usize) {
            earley_whole::lemma_paths_in_grown(
                g,
                arena,
                z,
                w,
                f.nodes[v].paths,
                f.nodes[v].paths.len() as int,
            );
        } else {
            assert(!t.visited.contains(v as usize));
            assert(h.nodes[v] == z.nodes[v]);
            assert(w.nodes[v].paths == h.nodes[v].paths);
        }
    }
}

/// Visits leave a forest whole.
pub proof fn lemma_load_whole(
    g: earley_chart::Context,
    arena: Seq<Trans>,
    gr: earley_shape::Ground,
    start: SymbolId,
    s: earley_paths::Loading,
    root: usize,
    k: nat,
)
    requires
        earley_chart::context_ok(g),
        earley_fill::flags_true(g),
        arena.len() <= usize::MAX,
        earley_load::load_state(g, arena, gr, start, s, root),
        load_whole(g, arena, s.forest, s),
        !gr.loose,
        forall|j: nat|
            j < k ==> earley_paths::can_visit(#[trigger] earley_paths::load_run(g, arena, s, j)),
        earley_shape::within_limits(earley_paths::load_run(g, arena, s, k).forest),
    ensures
        load_whole(g, arena, s.forest, earley_paths::load_run(g, arena, s, k)),
    decreases k,
{
    if k > 0 {
        let j = (k - 1) as nat;
        let u = earley_paths::load_run(g, arena, s, j);
        earley_load::lemma_run_sizes(g, arena, s, j, k);
        earley_shape::lemma_sizes_limits(
            u.forest,
            earley_paths::load_run(g, arena, s, k).forest,
        );
        lemma_load_whole(g, arena, gr, start, s, root, j);
        earley_load::lemma_load_run(g, arena, gr, start, s, root, j);
        assert(earley_paths::can_visit(u));
        if !u.visited.contains(u.stack.last()) {
            lemma_first_whole(g, arena, gr, start, s.forest, u, root);
        } else {
            let t = earley_paths::load_step(g, arena, u);
            assert(is_closed(t)) by {
                assert forall|v: usize, j: int, c: usize|
                    #![trigger t.visited.contains(v), earley_chain::refers(t.forest.nodes[v as int].families[j], c)]
                    t.visited.contains(v) && 0 <= j < t.forest.nodes[v as int].families.len()
                        && earley_chain::refers(t.forest.nodes[v as int].families[j], c) implies
                    t.visited.contains(c) || t.stack.contains(c) by {
                    assert(u.visited.contains(v));
                    assert(earley_chain::refers(u.forest.nodes[v as int].families[j], c));
                    if u.stack.contains(c) && !u.visited.contains(c) {
                        let i = choose|i: int| 0 <= i < u.stack.len() && u.stack[i] == c;
                        assert(t.stack[i] == c);
                    }
                }
            }
        }
    }
}

// ---------------------------------------------------------------------------
// The chart's forest

/// The node of a symbol that spans nothing has the families of all of the symbol's
/// rules that derive nothing.
proof fn lemma_null_done(
    g: earley_chart::Context,
    start: SymbolId,
    tokens: Seq<tree::TokenModel>,
    types: Seq<SymbolId>,
    m: earley_chart::ChartModel,
    hist: Seq<Seq<Item>>,
    x: int,
    s: SymbolId,
    r: int,
)
    requires
        earley_wired::is_whole_chart(g, start, tokens, types, m, hist),
        earley_fill::flags_true(g),
        g.rules.len() <= usize::MAX,
        earley_sprung::chart_sprung(g, m, hist, types.len() as int),
        0 <= x < m.forest.nodes.len(),
        m.forest.nodes[x].key == NodeKey::Sym(s),
        m.forest.nodes[x].start == m.forest.nodes[x].end,
        0 <= r < g.rules.len(),
        g.rules[r].origin == s,
        earley_paths::all_flagged(g.nullable, g.rules[r].expansion),
    ensures
        earley_fill::rule_in(
            g,
            m.forest,
            x,
            r,
            g.rules[r].expansion.len() as int,
            m.forest.nodes[x].end,
        ),
{
    let f = m.forest;
    let col = f.nodes[x].end;
    let c = col as int;
    let e = g.rules[r].expansion;
    let none = Seq::<SymbolId>::empty();
    assert(earley_exact::begins(g, hist[c], s, c));
    assert(g.rules[r].origin.ix() >= g.nt);
    assert(types.subrange(c, c) =~= none);
    if e.len() == 0 {
        let h = hist[c];
        let y = earley_chart::fresh(r, col);
        let q = choose|q: int| 0 <= q < h.len() && earley_chart::same_item(#[trigger] h[q], y);
        assert(earley_exact::column_full(g, m, hist[c], c));
        assert(earley_exact::item_full(g, m, h, c, h[q]));
        let column = m.columns[c];
        let k = choose|k: int| 0 <= k < column.len() && earley_chart::same_item(
            #[trigger] column[k],
            h[q],
        );
        assert(earley_led::column_led(g, m, hist[c], c));
        assert(earley_led::done_led(g, m, hist[c], c, m.columns[c][k]));
        assert(earley_led::has_empty(f, s, col, col));
        let n = choose|n: int|
            0 <= n < f.nodes.len() && earley_forest::labelled(
                #[trigger] f.nodes[n],
                NodeKey::Sym(s),
                col,
                col,
            ) && earley_forest::has_pair(
                f.nodes[n].families,
                ForestRef::Nothing,
                ForestRef::Nothing,
            );
        earley_chain::lemma_same_node(f, x, n);
        let fs = f.nodes[x].families;
        let j = choose|j: int|
            0 <= j < fs.len() && (#[trigger] fs[j]).left == ForestRef::Nothing && fs[j].right
                == ForestRef::Nothing;
        assert(earley_fill::fits(
            g,
            f,
            f.nodes[x].families[j].left,
            f.nodes[x].families[j].right,
            r,
            0,
            col,
        ));
    } else {
        let i = e.len() - 1;
        let front = e.take(i);
        assert(analysis::all_nullable(g.rules, g.nt, front)) by {
            assert forall|j: int| 0 <= j < front.len() implies analysis::nullable(
                g.rules,
                g.nt,
                #[trigger] front[j],
            ) by {
                assert(front[j] == e[j]);
                assert(g.rules[r].expansion[j].ix() < g.n);
                assert(g.nullable[e[j].ix() as int]);
            }
        }
        analysis::lemma_all_nullable_derives(g.rules, g.nt, front);
        let d = choose|d: nat| #[trigger] analysis::derives_seq(g.rules, g.nt, front, none, d);
        assert(analysis::nullable(g.rules, g.nt, e[i])) by {
            assert(g.rules[r].expansion[i].ix() < g.n);
            assert(g.nullable[e[i].ix() as int]);
        }
        let b = choose|b: nat| #[trigger] analysis::derives_sym(g.rules, g.nt, e[i], none, b);
        earley_wired::lemma_prefix(g, start, tokens, types, m, hist, r, i, c, c, d);
        earley_wired::lemma_advance(g, start, tokens, types, m, hist, r, i, c, c, c, b);
        if exists|t: usize| #[trigger]
            earley_wired::is_crossed(g, m, hist, r, i, c, c, c, t) {
            let t = choose|t: usize| #[trigger]
                earley_wired::is_crossed(g, m, hist, r, i, c, c, c, t);
            earley_wired::lemma_on_link(g, start, tokens, types, m, hist, t, c);
            assert(false);
        }
        let (n, left, right) = choose|n: int, left: ForestRef, right: ForestRef| #[trigger]
            earley_wired::is_part(g, f, r, i, c, c, c, n, left, right);
        earley_chain::lemma_same_node(f, x, n);
        assert(e[i].ix() >= g.nt) by {
            assert(none.len() != seq![e[i]].len());
        }
        let fs = f.nodes[x].families;
        let j = choose|j: int|
            0 <= j < fs.len() && (#[trigger] fs[j]).left == left && fs[j].right == right;
        assert(earley_fill::fits(
            g,
            f,
            f.nodes[x].families[j].left,
            f.nodes[x].families[j].right,
            r,
            e.len() as int,
            col,
        ));
    }
}

/// The forest of a chart is whole, but for the chains that were cut short.
pub proof fn lemma_chart_whole(
    g: earley_chart::Context,
    start: SymbolId,
    tokens: Seq<tree::TokenModel>,
    types: Seq<SymbolId>,
    m: earley_chart::ChartModel,
    hist: Seq<Seq<Item>>,
    root: usize,
)
    requires
        earley_wired::is_whole_chart(g, start, tokens, types, m, hist),
        earley_fill::flags_true(g),
        g.rules.len() <= usize::MAX,
        earley_sprung::chart_sprung(g, m, hist, types.len() as int),
    ensures
        load_whole(
            g,
            m.arena,
            m.forest,
            earley_paths::Loading { forest: m.forest, stack: seq![root], visited: Seq::empty() },
        ),
{
    let f = m.forest;
    assert(earley_whole::is_whole(g, m.arena, f)) by {
        reveal(earley_whole::is_whole);
        assert forall|x: int| 0 <= x < f.nodes.len() implies match (#[trigger] f.nodes[x]).key {
            NodeKey::Sym(s) => f.nodes[x].start == f.nodes[x].end ==> earley_fill::finished(
                g,
                f,
                x,
                s,
                f.nodes[x].end,
                g.rules.len() as int,
            ),
            NodeKey::Inter(_r, _d) => true,
        } by {
            if let NodeKey::Sym(s) = f.nodes[x].key {
                if f.nodes[x].start == f.nodes[x].end {
                    assert forall|r: int|
                        0 <= r < g.rules.len() && (#[trigger] g.rules[r]).origin == s
                            && earley_paths::all_flagged(
                            g.nullable,
                            g.rules[r].expansion,
                        ) implies earley_fill::rule_in(
                        g,
                        f,
                        x,
                        r,
                        g.rules[r].expansion.len() as int,
                        f.nodes[x].end,
                    ) by {
                        lemma_null_done(g, start, tokens, types, m, hist, x, s, r);
                    }
                }
            }
        }
        assert forall|t: int| 0 <= t < m.arena.len() implies (
        #[trigger] m.arena[t]).recognized.ix() >= g.nt by {
            earley_wired::lemma_link_symbol(g, start, tokens, types, m, hist, t);
        }
    }
    earley_shape::lemma_grown_self(f);
    let none = Seq::<usize>::empty();
    assert forall|v: usize| !none.contains(v) by {}
}

// ---------------------------------------------------------------------------
// Every derivation

/// What holds of the forest of a sentence that has been filled in.
pub open spec fn is_filled(
    g: earley_chart::Context,
    start: SymbolId,
    tokens: Seq<tree::TokenModel>,
    types: Seq<SymbolId>,
    m: earley_chart::ChartModel,
    hist: Seq<Seq<Item>>,
    s: earley_paths::Loading,
    root: usize,
) -> bool {
    &&& earley_wired::is_whole_chart(g, start, tokens, types, m, hist)
    &&& earley_fill::flags_true(g)
    &&& g.rules.len() <= usize::MAX
    &&& earley_load::load_state(
        g,
        m.arena,
        earley_shape::firm(m.columns, start),
        start,
        s,
        root,
    )
    &&& load_whole(g, m.arena, m.forest, s)
}

/// Where the node of a rule up to some symbol was visited and spans something, the
/// rule began where the node does.
proof fn lemma_visited_begun(
    g: earley_chart::Context,
    start: SymbolId,
    tokens: Seq<tree::TokenModel>,
    types: Seq<SymbolId>,
    m: earley_chart::ChartModel,
    hist: Seq<Seq<Item>>,
    s: earley_paths::Loading,
    root: usize,
    v: usize,
    r: int,
    d: int,
)
    requires
        is_filled(g, start, tokens, types, m, hist, s, root),
        s.visited.contains(v),
        0 <= r < g.rules.len(),
        0 < d <= g.rules[r].expansion.len(),
        s.forest.nodes[v as int].key == earley_chart::key_at(g, r as usize, d),
        s.forest.nodes[v as int].start < s.forest.nodes[v as int].end,
    ensures
        earley_chart::has_item(
            hist[s.forest.nodes[v as int].start as int],
            earley_shape::mark(r as usize, 0, s.forest.nodes[v as int].start),
        ),
        s.forest.nodes[v as int].start < m.columns.len(),
    decreases g.rules[r].expansion.len() - d,
{
    let f = s.forest;
    let k = earley_load::known_of(s);
    let gr = earley_shape::firm(m.columns, start);
    let n = f.nodes[v as int];
    let a = n.start as int;
    let e = g.rules[r].expansion;
    assert(g.rules[r].origin.ix() >= g.nt && e.len() <= usize::MAX);
    assert(k.visited.contains(v));
    assert(v == root || earley_chain::reached_by(f, k, v));
    if v == root {
        assert(d == e.len());
        assert(g.rules[r].origin == start);
        earley_wired::lemma_begun_mark(g, hist[0], start, 0, r);
    } else {
        let (u, j) = earley_chain::lemma_reached(f, k, v);
        let o = f.nodes[u as int];
        let p = f.nodes[u as int].families[j];
        assert(earley_shape::is_family(g, gr, f, o, p));
        if d < e.len() {
            assert(p.left == ForestRef::Node(v));
            assert(p.rule == r && p.right_pos == d);
            lemma_visited_begun(g, start, tokens, types, m, hist, s, root, u, r, d + 1);
        } else {
            assert(p.right == ForestRef::Node(v));
            let y = earley_shape::mark(p.rule, p.right_pos, o.start);
            let column = m.columns[a];
            assert(earley_chart::has_item(column, y));
            let q = choose|q: int|
                0 <= q < column.len() && earley_chart::same_item(#[trigger] column[q], y);
            assert(earley_exact::column_full(g, m, hist[a], a));
            let h = hist[a];
            assert(earley_chart::has_item(h, m.columns[a][q]));
            let z = choose|z: int|
                0 <= z < h.len() && earley_chart::same_item(#[trigger] h[z], column[q]);
            assert(earley_exact::item_full(g, m, h, a, h[z]));
            assert(earley_chart::expected(g, h[z]) == Some(g.rules[r].origin));
            earley_wired::lemma_begun_mark(g, hist[a], g.rules[r].origin, a, r);
        }
    }
}

/// Where what a link's rule produces was visited, so was what its chain leads to.
proof fn lemma_top_visited(
    g: earley_chart::Context,
    start: SymbolId,
    tokens: Seq<tree::TokenModel>,
    types: Seq<SymbolId>,
    m: earley_chart::ChartModel,
    hist: Seq<Seq<Item>>,
    s: earley_paths::Loading,
    root: usize,
    t: usize,
    end: usize,
)
    requires
        is_filled(g, start, tokens, types, m, hist, s, root),
        earley_wired::on_link(g, m, hist, t, end as int),
        !earley_chain::unvisited(
            s.forest,
            earley_load::known_of(s),
            NodeKey::Sym(g.rules[m.arena[t as int].red.rule as int].origin),
            m.arena[t as int].red.origin,
            end,
        ),
    ensures
        !earley_chain::unvisited(
            s.forest,
            earley_load::known_of(s),
            NodeKey::Sym(g.rules[m.arena[t as int].top.rule as int].origin),
            m.arena[t as int].top.origin,
            end,
        ),
    decreases t,
{
    let f = s.forest;
    let k = earley_load::known_of(s);
    let gr = earley_shape::firm(m.columns, start);
    let x = m.arena[t as int];
    earley_wired::lemma_on_link(g, start, tokens, types, m, hist, t, end as int);
    assert(earley_chain::is_link(g, gr, start, f, m.arena, t as int));
    if let Some(p) = x.parent {
        earley_wired::lemma_on_link(g, start, tokens, types, m, hist, p, end as int);
        assert(earley_chain::is_link(g, gr, start, f, m.arena, p as int));
        let y = m.arena[p as int];
        if earley_chain::unvisited(
            f,
            k,
            NodeKey::Sym(g.rules[y.red.rule as int].origin),
            y.red.origin,
            end,
        ) {
            earley_chain::lemma_link_unvisited(
                g,
                m.arena,
                gr,
                start,
                f,
                k,
                root,
                p as int,
                end,
                y.red.dot + 1,
            );
            earley_chain::lemma_symbol_unvisited(
                g,
                m.arena,
                gr,
                start,
                f,
                k,
                root,
                p as int,
                end,
            );
        }
        lemma_top_visited(g, start, tokens, types, m, hist, s, root, p, end);
    }
}

/// Where a chain passes over a symbol of a rule whose node was visited, the families
/// of its link are in the forest.
proof fn lemma_crossed_in(
    g: earley_chart::Context,
    start: SymbolId,
    tokens: Seq<tree::TokenModel>,
    types: Seq<SymbolId>,
    m: earley_chart::ChartModel,
    hist: Seq<Seq<Item>>,
    s: earley_paths::Loading,
    root: usize,
    v: usize,
    t: usize,
    d: int,
)
    requires
        is_filled(g, start, tokens, types, m, hist, s, root),
        s.visited.contains(v),
        earley_wired::on_link(g, m, hist, t, s.forest.nodes[v as int].end as int),
        m.arena[t as int].red.dot <= d
            < g.rules[m.arena[t as int].red.rule as int].expansion.len(),
        s.forest.nodes[v as int].key == earley_chart::key_at(
            g,
            m.arena[t as int].red.rule,
            d + 1,
        ),
        s.forest.nodes[v as int].start == m.arena[t as int].red.origin,
    ensures
        earley_whole::link_in(g, s.forest, m.arena[t as int], s.forest.nodes[v as int].end),
{
    let f = s.forest;
    let k = earley_load::known_of(s);
    let gr = earley_shape::firm(m.columns, start);
    let x = m.arena[t as int];
    let end = f.nodes[v as int].end;
    earley_wired::lemma_on_link(g, start, tokens, types, m, hist, t, end as int);
    assert(earley_chain::is_link(g, gr, start, f, m.arena, t as int));
    let key = NodeKey::Sym(g.rules[x.red.rule as int].origin);
    if earley_chain::unvisited(f, k, key, x.red.origin, end) {
        earley_chain::lemma_link_unvisited(
            g,
            m.arena,
            gr,
            start,
            f,
            k,
            root,
            t as int,
            end,
            d + 1,
        );
        assert(k.visited.contains(v));
        assert(false);
    }
    lemma_top_visited(g, start, tokens, types, m, hist, s, root, t, end);
    let top_key = NodeKey::Sym(g.rules[x.top.rule as int].origin);
    let u = choose|u: usize| #[trigger] k.visited.contains(u) && earley_forest::labelled(
        f.nodes[u as int],
        top_key,
        x.top.origin,
        end,
    );
    let o = choose|o: usize| #[trigger] earley_wired::passes(g, m, hist, o, t, end as int);
    let c = m.forest;
    let (n, q) = choose|n: int, q: int|
        0 <= n < c.nodes.len() && 0 <= q < c.nodes[n].paths.len() && earley_forest::labelled(
            c.nodes[n],
            earley_chart::key_at(g, x.top.rule, x.top.dot as int),
            x.top.origin,
            end,
        ) && (#[trigger] c.nodes[n].paths[q]).0 == o && c.nodes[n].paths[q].2 == end;
    assert(earley_shape::is_path(g, gr, m.arena, c, c.nodes[n], c.nodes[n].paths[q]));
    assert(earley_forest::labelled(
        f.nodes[n],
        c.nodes[n].key,
        c.nodes[n].start,
        c.nodes[n].end,
    ));
    assert(u < f.nodes.len());
    earley_chain::lemma_same_node(f, n, u as int);
    assert(s.visited.contains(n as usize));
    assert(earley_whole::paths_in(
        g,
        m.arena,
        f,
        c.nodes[n].paths,
        c.nodes[n].paths.len() as int,
    ));
    reveal(earley_whole::paths_in);
    reveal(earley_whole::chain_in);
    let chain = earley_paths::chain_of(m.arena, o as int);
    assert(earley_whole::chain_in(
        g,
        m.arena,
        f,
        earley_paths::chain_of(m.arena, c.nodes[n].paths[q].0 as int),
        c.nodes[n].paths[q].2,
    ));
    let i = choose|i: int| 0 <= i < chain.len() && chain[i] == t;
    assert(earley_whole::link_in(g, f, m.arena[chain[i] as int], end));
}

/// The node of a rule up to some symbol, all of it deriving nothing, has the family
/// of that symbol.
proof fn lemma_null_part(
    g: earley_chart::Context,
    start: SymbolId,
    tokens: Seq<tree::TokenModel>,
    types: Seq<SymbolId>,
    m: earley_chart::ChartModel,
    hist: Seq<Seq<Item>>,
    s: earley_paths::Loading,
    root: usize,
    v: usize,
    r: int,
    d: int,
)
    requires
        is_filled(g, start, tokens, types, m, hist, s, root),
        s.visited.contains(v),
        0 <= r < g.rules.len(),
        0 <= d < g.rules[r].expansion.len(),
        s.forest.nodes[v as int].key == earley_chart::key_at(g, r as usize, d + 1),
        s.forest.nodes[v as int].start == s.forest.nodes[v as int].end,
        forall|j: int|
            0 <= j <= d ==> analysis::nullable(
                g.rules,
                g.nt,
                #[trigger] g.rules[r].expansion[j],
            ),
    ensures
        earley_wired::has_part(
            g,
            s.forest,
            r,
            d,
            s.forest.nodes[v as int].start as int,
            s.forest.nodes[v as int].start as int,
            s.forest.nodes[v as int].start as int,
        ),
{
    let f = s.forest;
    let k = earley_load::known_of(s);
    let gr = earley_shape::firm(m.columns, start);
    let n = f.nodes[v as int];
    let c = n.start as int;
    let e = g.rules[r].expansion;
    let none = Seq::<SymbolId>::empty();
    assert(g.rules[r].origin.ix() >= g.nt && e.len() <= usize::MAX);
    assert(k.visited.contains(v));
    assert(v < f.nodes.len());
    assert(e[d].ix() >= g.nt) by {
        assert(analysis::nullable(g.rules, g.nt, g.rules[r].expansion[d]));
        let b = choose|b: nat| #[trigger] analysis::derives_sym(g.rules, g.nt, e[d], none, b);
        assert(none.len() != seq![e[d]].len());
    }
    if d + 1 < e.len() {
        assert(earley_good::is_good(f, k, v as int));
        let b = choose|b: nat| #[trigger] earley_good::good(f, k, v as int, b);
        assert(f.nodes[v as int].paths.len() == 0);
        let j = choose|j: int|
            0 <= j < f.nodes[v as int].families.len() && earley_good::led(
                f,
                k,
                v as int,
                (#[trigger] f.nodes[v as int].families[j]).left,
                (b - 1) as nat,
            ) && earley_good::led(
                f,
                k,
                v as int,
                f.nodes[v as int].families[j].right,
                (b - 1) as nat,
            );
        let p = f.nodes[v as int].families[j];
        assert(earley_shape::is_family(g, gr, f, f.nodes[v as int], p));
        assert(p.rule == r && p.right_pos == d);
        assert(earley_wired::is_part(g, f, r, d, c, c, c, v as int, p.left, p.right));
    } else {
        assert(earley_whole::nulls_done(g, f)) by {
            reveal(earley_whole::is_whole);
        }
        let o = g.rules[r].origin;
        assert(earley_fill::finished(g, f, v as int, o, n.end, g.rules.len() as int));
        assert(earley_paths::all_flagged(g.nullable, e)) by {
            assert forall|j: int| 0 <= j < e.len() implies g.nullable[(
            #[trigger] e[j]).ix() as int] by {
                assert(g.rules[r].expansion[j].ix() < g.n);
                assert(analysis::nullable(g.rules, g.nt, g.rules[r].expansion[j]));
            }
        }
        assert(earley_fill::rule_in(g, f, v as int, r, e.len() as int, n.end));
        let j = choose|j: int|
            0 <= j < f.nodes[v as int].families.len() && earley_fill::fits(
                g,
                f,
                (#[trigger] f.nodes[v as int].families[j]).left,
                f.nodes[v as int].families[j].right,
                r,
                e.len() as int,
                n.end,
            );
        let p = f.nodes[v as int].families[j];
        assert(earley_forest::has_pair(f.nodes[v as int].families, p.left, p.right));
        assert(earley_wired::is_part(g, f, r, d, c, c, c, v as int, p.left, p.right));
    }
}

/// The node of a rule up to some symbol has the family of that symbol for each way
/// in which the rule derives what the node spans.
pub proof fn lemma_every_part(
    g: earley_chart::Context,
    start: SymbolId,
    tokens: Seq<tree::TokenModel>,
    types: Seq<SymbolId>,
    m: earley_chart::ChartModel,
    hist: Seq<Seq<Item>>,
    s: earley_paths::Loading,
    root: usize,
    v: usize,
    r: int,
    d: int,
    p: int,
)
    requires
        is_filled(g, start, tokens, types, m, hist, s, root),
        s.visited.contains(v),
        0 <= r < g.rules.len(),
        0 <= d < g.rules[r].expansion.len(),
        s.forest.nodes[v as int].key == earley_chart::key_at(g, r as usize, d + 1),
        s.forest.nodes[v as int].start <= p <= s.forest.nodes[v as int].end <= types.len(),
        analysis::derives_all(
            g.rules,
            g.nt,
            g.rules[r].expansion.take(d),
            types.subrange(s.forest.nodes[v as int].start as int, p),
        ),
        analysis::derives(
            g.rules,
            g.nt,
            g.rules[r].expansion[d],
            types.subrange(p, s.forest.nodes[v as int].end as int),
        ),
    ensures
        earley_wired::has_part(
            g,
            s.forest,
            r,
            d,
            s.forest.nodes[v as int].start as int,
            p,
            s.forest.nodes[v as int].end as int,
        ),
{
    let f = s.forest;
    let a = f.nodes[v as int].start as int;
    let b = f.nodes[v as int].end as int;
    let e = g.rules[r].expansion;
    let front = e.take(d);
    assert(g.rules[r].origin.ix() >= g.nt && e.len() <= usize::MAX);
    if a == b {
        assert(types.subrange(a, a) =~= Seq::<SymbolId>::empty());
        analysis::lemma_derives_all_nullable(g.rules, g.nt, front);
        assert forall|j: int| 0 <= j <= d implies analysis::nullable(
            g.rules,
            g.nt,
            #[trigger] g.rules[r].expansion[j],
        ) by {
            if j < d {
                assert(front[j] == e[j]);
            }
        }
        lemma_null_part(g, start, tokens, types, m, hist, s, root, v, r, d);
    } else {
        let x = choose|x: nat| #[trigger] analysis::derives_seq(
            g.rules,
            g.nt,
            front,
            types.subrange(a, p),
            x,
        );
        let y = choose|y: nat| #[trigger] analysis::derives_sym(
            g.rules,
            g.nt,
            e[d],
            types.subrange(p, b),
            y,
        );
        lemma_visited_begun(g, start, tokens, types, m, hist, s, root, v, r, d + 1);
        earley_wired::lemma_prefix(g, start, tokens, types, m, hist, r, d, a, p, x);
        earley_wired::lemma_advance(g, start, tokens, types, m, hist, r, d, a, p, b, y);
        if earley_wired::has_part(g, m.forest, r, d, a, p, b) {
            earley_wired::lemma_part_grown(g, m.forest, f, r, d, a, p, b);
        } else {
            let t = choose|t: usize| #[trigger]
                earley_wired::is_crossed(g, m, hist, r, d, a, p, b, t);
            lemma_crossed_in(g, start, tokens, types, m, hist, s, root, v, t, d);
            reveal(earley_whole::link_in);
        }
    }
}

} // verus!
