//! The families that a grammar's derivations need are in the Earley chart's forest,
//! or behind a chain that was cut short.

use vstd::prelude::*;
use crate::analysis;
use crate::earley_chart;
use crate::earley_complete;
use crate::earley_exact;
use crate::earley_forest;
use crate::earley_forest::{ForestRef, Item, NodeKey};
use crate::earley_led;
use crate::earley_leo;
use crate::earley_paths;
use crate::earley_places;
use crate::earley_shape;
use crate::earley_sound;
use crate::reading;
use crate::symbols::SymbolId;
use crate::tree;

verus! {

// ---------------------------------------------------------------------------
// Parts

/// Whether a reference is what the first `d` symbols of a rule derive between two
/// columns.
pub open spec fn left_ok(
    f: earley_forest::ForestModel,
    r: int,
    d: int,
    a: int,
    p: int,
    left: ForestRef,
) -> bool {
    if d == 0 {
        left is Nothing && a == p
    } else {
        earley_shape::is_at(
            f,
            left,
            NodeKey::Inter(r as usize, d as usize),
            a as usize,
            p as usize,
        )
    }
}

/// Whether a reference is what a symbol derives between two columns.
pub open spec fn right_ok(
    g: earley_chart::Context,
    f: earley_forest::ForestModel,
    x: SymbolId,
    right: ForestRef,
    p: int,
    q: int,
) -> bool {
    if x.ix() < g.nt {
        right == ForestRef::Tok(p as usize) && q == p + 1
    } else {
        earley_shape::is_at(f, right, NodeKey::Sym(x), p as usize, q as usize)
    }
}

/// Whether node `n` is that of the first `d + 1` symbols of a rule between the
/// columns `a` and `q`, with a family by which the last of them begins at `p`.
pub open spec fn is_part(
    g: earley_chart::Context,
    f: earley_forest::ForestModel,
    r: int,
    d: int,
    a: int,
    p: int,
    q: int,
    n: int,
    left: ForestRef,
    right: ForestRef,
) -> bool {
    &&& 0 <= n < f.nodes.len()
    &&& earley_forest::labelled(
        f.nodes[n],
        earley_chart::key_at(g, r as usize, d + 1),
        a as usize,
        q as usize,
    )
    &&& earley_forest::has_pair(f.nodes[n].families, left, right)
    &&& left_ok(f, r, d, a, p, left)
    &&& right_ok(g, f, g.rules[r].expansion[d], right, p, q)
}

/// Whether the forest has the family by which symbol `d` of a rule begun at column
/// `a` stands between the columns `p` and `q`.
pub open spec fn has_part(
    g: earley_chart::Context,
    f: earley_forest::ForestModel,
    r: int,
    d: int,
    a: int,
    p: int,
    q: int,
) -> bool {
    exists|n: int, left: ForestRef, right: ForestRef| #[trigger]
        is_part(g, f, r, d, a, p, q, n, left, right)
}

/// Families stay as the forest grows.
pub proof fn lemma_part_grown(
    g: earley_chart::Context,
    f: earley_forest::ForestModel,
    h: earley_forest::ForestModel,
    r: int,
    d: int,
    a: int,
    p: int,
    q: int,
)
    requires
        earley_forest::extends(f, h),
        earley_shape::pairs_kept(f, h),
        has_part(g, f, r, d, a, p, q),
    ensures
        has_part(g, h, r, d, a, p, q),
{
    let (n, left, right) = choose|n: int, left: ForestRef, right: ForestRef| #[trigger]
        is_part(g, f, r, d, a, p, q, n, left, right);
    earley_led::lemma_pair_grown(f, h, n, left, right);
    if d != 0 {
        earley_shape::lemma_at_grown(
            f,
            h,
            left,
            NodeKey::Inter(r as usize, d as usize),
            a as usize,
            p as usize,
        );
    }
    let x = g.rules[r].expansion[d];
    if x.ix() >= g.nt {
        earley_shape::lemma_at_grown(f, h, right, NodeKey::Sym(x), p as usize, q as usize);
    }
    assert(is_part(g, h, r, d, a, p, q, n, left, right));
}

// ---------------------------------------------------------------------------
// Chains

/// Whether the chain that begins with link `o` was cut short at column `e`, and
/// link `t` is on it.
pub open spec fn passes(
    g: earley_chart::Context,
    m: earley_chart::ChartModel,
    hist: Seq<Seq<Item>>,
    o: usize,
    t: usize,
    e: int,
) -> bool {
    &&& o < m.arena.len()
    &&& t < m.arena.len()
    &&& m.arena[t as int].key_start < e
    &&& m.arena[t as int].top == m.arena[o as int].top
    &&& earley_led::is_cut(g, m.forest, m.arena[o as int].top, o, e as usize)
    &&& earley_chart::has_item(hist[e], m.arena[o as int].top)
    &&& earley_paths::chain_of(m.arena, o as int).contains(t)
}

/// Whether link `t` is on a chain that was cut short at column `e`.
pub open spec fn on_link(
    g: earley_chart::Context,
    m: earley_chart::ChartModel,
    hist: Seq<Seq<Item>>,
    t: usize,
    e: int,
) -> bool {
    exists|o: usize| #[trigger] passes(g, m, hist, o, t, e)
}

proof fn lemma_chain_first(arena: Seq<earley_forest::Trans>, o: usize)
    ensures
        earley_paths::chain_of(arena, o as int).contains(o),
{
    assert(earley_paths::chain_of(arena, o as int)[0] == o);
}

/// With a link its parent is on a chain.
proof fn lemma_chain_parent(
    g: earley_chart::Context,
    start: SymbolId,
    m: earley_chart::ChartModel,
    n: int,
    o: int,
    t: usize,
    p: usize,
)
    requires
        earley_complete::links_true(g, m, start, n),
        0 <= o < m.arena.len() <= usize::MAX,
        earley_paths::chain_of(m.arena, o).contains(t),
        m.arena[t as int].parent == Some(p),
    ensures
        earley_paths::chain_of(m.arena, o).contains(p),
    decreases o,
{
    let chain = earley_paths::chain_of(m.arena, o);
    assert(earley_complete::link_true(g, m, start, n, o));
    if let Some(z) = m.arena[o].parent {
        let rest = earley_paths::chain_of(m.arena, z as int);
        assert(chain == seq![o as usize] + rest);
        if t == o {
            lemma_chain_first(m.arena, z);
            let k = choose|k: int| 0 <= k < rest.len() && rest[k] == z;
            assert(chain[k + 1] == z);
        } else {
            let k = choose|k: int| 0 <= k < chain.len() && chain[k] == t;
            assert(rest[k - 1] == t);
            lemma_chain_parent(g, start, m, n, z as int, t, p);
            let y = choose|y: int| 0 <= y < rest.len() && rest[y] == p;
            assert(chain[y + 1] == p);
        }
    } else {
        assert(chain == seq![o as usize]);
        assert(t == o);
    }
}

/// What a symbol begun at column `j` and complete at column `e` leads to: the item
/// of each rule that waits for it is moved over its node, or a chain is followed.
pub open spec fn sym_led(
    g: earley_chart::Context,
    m: earley_chart::ChartModel,
    hist: Seq<Seq<Item>>,
    b: SymbolId,
    j: int,
    e: int,
) -> bool {
    ||| exists|id: usize|
        earley_shape::is_at(
            m.forest,
            ForestRef::Node(id),
            NodeKey::Sym(b),
            j as usize,
            e as usize,
        ) && #[trigger] earley_led::are_moved(g, m, hist[e], e, b, j, id)
    ||| j < e && exists|t: usize| #[trigger] on_link(g, m, hist, t, e) && m.arena[t as int].recognized == b
        && m.arena[t as int].key_start == j
}

/// Whether a rule has been skipped by following a chain.
pub open spec fn is_skipped(
    g: earley_chart::Context,
    m: earley_chart::ChartModel,
    hist: Seq<Seq<Item>>,
    r: int,
    i: int,
    a: int,
    p: int,
    t: usize,
) -> bool {
    &&& on_link(g, m, hist, t, p)
    &&& m.arena[t as int].red.rule == r
    &&& m.arena[t as int].red.origin == a
    &&& m.arena[t as int].red.dot < i
}

/// Whether a rule begun at column `a` stands before symbol `i` at column `p`, or has
/// been skipped there.
pub open spec fn stands_at(
    g: earley_chart::Context,
    m: earley_chart::ChartModel,
    hist: Seq<Seq<Item>>,
    r: int,
    i: int,
    a: int,
    p: int,
) -> bool {
    ||| earley_chart::has_item(hist[p], earley_shape::mark(r as usize, i as usize, a as usize))
    ||| exists|t: usize| #[trigger] is_skipped(g, m, hist, r, i, a, p, t)
}

/// Whether a chain passes over symbol `d` of a rule, between the columns `p` and `q`.
pub open spec fn is_crossed(
    g: earley_chart::Context,
    m: earley_chart::ChartModel,
    hist: Seq<Seq<Item>>,
    r: int,
    d: int,
    a: int,
    p: int,
    q: int,
    t: usize,
) -> bool {
    let x = m.arena[t as int];
    &&& on_link(g, m, hist, t, q)
    &&& x.red.rule == r
    &&& x.red.origin == a
    &&& x.red.dot == d && x.key_start == p && p < q || x.red.dot < d && p == q
}

/// Whether the family of symbol `d` of a rule is in the forest, or behind a chain
/// that was cut short.
pub open spec fn is_wired(
    g: earley_chart::Context,
    m: earley_chart::ChartModel,
    hist: Seq<Seq<Item>>,
    r: int,
    d: int,
    a: int,
    p: int,
    q: int,
) -> bool {
    ||| has_part(g, m.forest, r, d, a, p, q)
    ||| exists|t: usize| #[trigger] is_crossed(g, m, hist, r, d, a, p, q, t)
}

// ---------------------------------------------------------------------------
// What a derivation needs

/// What holds of a chart of all of the tokens.
pub open spec fn is_whole_chart(
    g: earley_chart::Context,
    start: SymbolId,
    tokens: Seq<tree::TokenModel>,
    types: Seq<SymbolId>,
    m: earley_chart::ChartModel,
    hist: Seq<Seq<Item>>,
) -> bool {
    &&& earley_sound::context_true(g)
    &&& tokens.len() == types.len() <= usize::MAX
    &&& forall|k: int| 0 <= k < types.len() ==> tokens[k].type_id == #[trigger] types[k]
    &&& earley_exact::full_to(
        g,
        start,
        reading::of_types(types, start),
        m,
        hist,
        types.len() as int,
    )
    &&& earley_led::chart_led(g, m, hist, tokens, types.len() as int)
    &&& earley_places::chart_shape(
        g,
        earley_shape::firm(m.columns, start),
        m,
        types.len() as int,
    )
    &&& m.arena.len() <= usize::MAX
}

/// A link on a chain, with what it rests on.
pub proof fn lemma_on_link(
    g: earley_chart::Context,
    start: SymbolId,
    tokens: Seq<tree::TokenModel>,
    types: Seq<SymbolId>,
    m: earley_chart::ChartModel,
    hist: Seq<Seq<Item>>,
    t: usize,
    e: int,
)
    requires
        is_whole_chart(g, start, tokens, types, m, hist),
        on_link(g, m, hist, t, e),
    ensures
        t < m.arena.len(),
        m.arena[t as int].key_start < e,
        earley_complete::link_true(g, m, start, types.len() as int, t as int),
        earley_chart::has_item(hist[e], m.arena[t as int].top),
        m.arena[t as int].red.origin <= m.arena[t as int].key_start,
        m.arena[t as int].red.rule < g.rules.len(),
        m.arena[t as int].red.dot < g.rules[m.arena[t as int].red.rule as int].expansion.len(),
        m.columns[m.arena[t as int].key_start as int].contains(m.arena[t as int].red),
        earley_chart::expected(g, m.arena[t as int].red) == Some(m.arena[t as int].recognized),
        m.arena[t as int].parent matches Some(p) ==> on_link(g, m, hist, p, e)
            && m.arena[p as int].recognized
            == g.rules[m.arena[t as int].red.rule as int].origin && m.arena[p as int].key_start
            == m.arena[t as int].red.origin,
{
    let n = types.len() as int;
    let o = choose|o: usize| #[trigger] passes(g, m, hist, o, t, e);
    let x = m.arena[t as int];
    assert(earley_complete::link_true(g, m, start, n, t as int));
    let column = m.columns[x.key_start as int];
    earley_chart::lemma_waiting(g, column, x.recognized);
    let items = earley_chart::waiting(g, column, x.recognized);
    assert(items[0] == x.red);
    assert(column.contains(items[0]));
    let q = choose|q: int| 0 <= q < column.len() && column[q] == x.red;
    let l = reading::of_types(types, start);
    assert(earley_sound::items_derived(g, l, x.key_start as int, column));
    assert(earley_sound::item_derived(g, l, x.key_start as int, column[q]));
    if let Some(p) = x.parent {
        lemma_chain_parent(g, start, m, n, o as int, t, p);
        assert(earley_complete::link_true(g, m, start, n, p as int));
        assert(passes(g, m, hist, o, p, e));
    }
}

/// The symbol of a link is no terminal.
pub proof fn lemma_link_symbol(
    g: earley_chart::Context,
    start: SymbolId,
    tokens: Seq<tree::TokenModel>,
    types: Seq<SymbolId>,
    m: earley_chart::ChartModel,
    hist: Seq<Seq<Item>>,
    t: int,
)
    requires
        is_whole_chart(g, start, tokens, types, m, hist),
        0 <= t < m.arena.len(),
    ensures
        m.arena[t].recognized.ix() >= g.nt,
{
    let x = m.arena[t];
    assert(earley_complete::link_true(g, m, start, types.len() as int, t));
    let column = m.columns[x.key_start as int];
    earley_chart::lemma_waiting(g, column, x.recognized);
    assert(earley_chart::waiting(g, column, x.recognized)[0] == x.red);
    assert(column.contains(x.red));
    let q = choose|q: int| 0 <= q < column.len() && column[q] == x.red;
    assert(earley_places::none_waits(g, m.columns[x.key_start as int]));
    assert(!earley_chart::wants_terminal(g, column[q]));
}

/// Where the rules of a symbol begin, each of them stands before its first symbol.
pub proof fn lemma_begun_mark(
    g: earley_chart::Context,
    h: Seq<Item>,
    s: SymbolId,
    a: int,
    r: int,
)
    requires
        earley_exact::begins(g, h, s, a),
        0 <= r < g.rules.len(),
        g.rules[r].origin == s,
    ensures
        earley_chart::has_item(h, earley_shape::mark(r as usize, 0, a as usize)),
{
    earley_complete::lemma_same_has(
        h,
        earley_chart::fresh(r, a as usize),
        earley_shape::mark(r as usize, 0, a as usize),
    );
}

/// What a complete item leads to.
proof fn lemma_done_sym(
    g: earley_chart::Context,
    start: SymbolId,
    tokens: Seq<tree::TokenModel>,
    types: Seq<SymbolId>,
    m: earley_chart::ChartModel,
    hist: Seq<Seq<Item>>,
    x: Item,
    e: int,
)
    requires
        is_whole_chart(g, start, tokens, types, m, hist),
        0 <= e <= types.len(),
        earley_chart::has_item(hist[e], x),
        earley_chart::is_done(g, x),
    ensures
        sym_led(g, m, hist, g.rules[x.rule as int].origin, x.origin as int, e),
{
    let h = hist[e];
    let b = g.rules[x.rule as int].origin;
    let j = x.origin as int;
    let q = choose|q: int| 0 <= q < h.len() && earley_chart::same_item(#[trigger] h[q], x);
    assert(earley_exact::column_full(g, m, hist[e], e));
    assert(earley_exact::item_full(g, m, h, e, h[q]));
    let column = m.columns[e];
    let k = choose|k: int| 0 <= k < column.len() && earley_chart::same_item(
        #[trigger] column[k],
        h[q],
    );
    assert(earley_led::column_led(g, m, hist[e], e));
    assert(earley_led::done_led(g, m, hist[e], e, m.columns[e][k]));
    assert(earley_led::is_led(g, m, hist[e], e, b, j));
    if j < e && earley_led::is_linked(g, m, hist[e], e, b, j) {
        let t = earley_chart::find_trans(m.trans[j], b, 0)->0;
        earley_leo::lemma_find_trans(m.trans[j], b, 0);
        assert(earley_chart::row_ok(m, j, m.trans[j]));
        let z = choose|z: int| 0 <= z < m.trans[j].len() && #[trigger] m.trans[j][z] == (b, t);
        assert(m.trans[j][z].1 == t);
        lemma_chain_first(m.arena, t);
        assert(passes(g, m, hist, t, t, e));
        assert(on_link(g, m, hist, t, e));
    }
}

/// What a rule that stands at its end leads to.
proof fn lemma_end_sym(
    g: earley_chart::Context,
    start: SymbolId,
    tokens: Seq<tree::TokenModel>,
    types: Seq<SymbolId>,
    m: earley_chart::ChartModel,
    hist: Seq<Seq<Item>>,
    r: int,
    a: int,
    e: int,
)
    requires
        is_whole_chart(g, start, tokens, types, m, hist),
        0 <= a <= e <= types.len(),
        0 <= r < g.rules.len() <= usize::MAX,
        stands_at(g, m, hist, r, g.rules[r].expansion.len() as int, a, e),
    ensures
        sym_led(g, m, hist, g.rules[r].origin, a, e),
{
    let len = g.rules[r].expansion.len();
    assert(len <= usize::MAX) by {
        assert(g.rules[r].origin.ix() >= g.nt);
    }
    let x = earley_shape::mark(r as usize, len as usize, a as usize);
    if earley_chart::has_item(hist[e], x) {
        lemma_done_sym(g, start, tokens, types, m, hist, x, e);
    } else {
        let t = choose|t: usize| #[trigger] is_skipped(g, m, hist, r, len as int, a, e, t);
        lemma_on_link(g, start, tokens, types, m, hist, t, e);
        let y = m.arena[t as int];
        match y.parent {
            Some(p) => {
                assert(on_link(g, m, hist, p, e));
            },
            None => {
                let top = earley_leo::done_item(g, y.red);
                assert(y.top == top);
                lemma_done_sym(g, start, tokens, types, m, hist, top, e);
            },
        }
    }
}

/// A rule moves over a terminal.
proof fn lemma_advance_token(
    g: earley_chart::Context,
    start: SymbolId,
    tokens: Seq<tree::TokenModel>,
    types: Seq<SymbolId>,
    m: earley_chart::ChartModel,
    hist: Seq<Seq<Item>>,
    r: int,
    i: int,
    a: int,
    p: int,
)
    requires
        is_whole_chart(g, start, tokens, types, m, hist),
        0 <= a <= p < types.len(),
        0 <= r < g.rules.len() <= usize::MAX,
        0 <= i < g.rules[r].expansion.len() <= usize::MAX,
        g.rules[r].expansion[i].ix() < g.nt,
        types[p] == g.rules[r].expansion[i],
        earley_chart::has_item(
            hist[p],
            earley_shape::mark(r as usize, i as usize, a as usize),
        ),
    ensures
        is_wired(g, m, hist, r, i, a, p, p + 1),
        stands_at(g, m, hist, r, i + 1, a, p + 1),
{
    let x = earley_shape::mark(r as usize, i as usize, a as usize);
    let l = reading::of_types(types, start);
    let b = g.rules[r].expansion[i];
    let h = hist[p];
    let q = choose|q: int| 0 <= q < h.len() && earley_chart::same_item(#[trigger] h[q], x);
    let o = h[q];
    assert(tokens[p].type_id == types[p]);
    assert(reading::tok_at(l, p, p + 1, b));
    assert(earley_exact::carried(g, hist[p], b, hist[p + 1]));
    assert(earley_chart::expected(g, h[q]) == Some(b));
    earley_complete::lemma_same_has(
        hist[p + 1],
        earley_complete::next_item(o),
        earley_shape::mark(r as usize, (i + 1) as usize, a as usize),
    );
    let right = ForestRef::Tok(p as usize);
    assert(earley_led::all_scanned(
        g,
        m.forest,
        hist[p],
        tokens[p].type_id,
        ForestRef::Tok(p as usize),
        (p + 1) as usize,
    ));
    assert(earley_led::is_moved(g, m.forest, h[q], right, (p + 1) as usize));
    assert(earley_led::all_seated(g, m.forest, hist[p], p));
    assert(earley_led::is_seated(g, m.forest, p, h[q]));
    let f = m.forest;
    let n = choose|n: int|
        0 <= n < f.nodes.len() && earley_forest::labelled(
            #[trigger] f.nodes[n],
            earley_chart::key_at(g, o.rule, o.dot + 1),
            o.origin,
            (p + 1) as usize,
        ) && earley_forest::has_pair(f.nodes[n].families, o.node, right);
    assert(is_part(g, f, r, i, a, p, p + 1, n, o.node, right));
}

/// A rule moves over a symbol that is complete.
proof fn lemma_advance_sym(
    g: earley_chart::Context,
    start: SymbolId,
    tokens: Seq<tree::TokenModel>,
    types: Seq<SymbolId>,
    m: earley_chart::ChartModel,
    hist: Seq<Seq<Item>>,
    r: int,
    i: int,
    a: int,
    p: int,
    e: int,
)
    requires
        is_whole_chart(g, start, tokens, types, m, hist),
        0 <= a <= p <= e <= types.len(),
        0 <= r < g.rules.len() <= usize::MAX,
        0 <= i < g.rules[r].expansion.len() <= usize::MAX,
        g.rules[r].expansion[i].ix() >= g.nt,
        earley_chart::has_item(
            hist[p],
            earley_shape::mark(r as usize, i as usize, a as usize),
        ),
        sym_led(g, m, hist, g.rules[r].expansion[i], p, e),
    ensures
        is_wired(g, m, hist, r, i, a, p, e),
        stands_at(g, m, hist, r, i + 1, a, e),
{
    let x = earley_shape::mark(r as usize, i as usize, a as usize);
    let b = g.rules[r].expansion[i];
    let h = hist[p];
    let q = choose|q: int| 0 <= q < h.len() && earley_chart::same_item(#[trigger] h[q], x);
    assert(earley_exact::column_full(g, m, hist[p], p));
    assert(earley_exact::item_full(g, m, h, p, h[q]));
    let column = m.columns[p];
    let z = choose|z: int| 0 <= z < column.len() && earley_chart::same_item(
        #[trigger] column[z],
        h[q],
    );
    let o = column[z];
    assert(earley_chart::expected(g, m.columns[p][z]) == Some(b));
    let f = m.forest;
    let moved = exists|id: usize|
        earley_shape::is_at(f, ForestRef::Node(id), NodeKey::Sym(b), p as usize, e as usize)
            && #[trigger] earley_led::are_moved(g, m, hist[e], e, b, p, id);
    if moved {
        let id = choose|id: usize|
            earley_shape::is_at(f, ForestRef::Node(id), NodeKey::Sym(b), p as usize, e as usize)
                && #[trigger] earley_led::are_moved(g, m, hist[e], e, b, p, id);
        let right = ForestRef::Node(id);
        assert(earley_led::is_moved(g, f, m.columns[p][z], right, e as usize));
        let n = choose|n: int|
            0 <= n < f.nodes.len() && earley_forest::labelled(
                #[trigger] f.nodes[n],
                earley_chart::key_at(g, o.rule, o.dot + 1),
                o.origin,
                e as usize,
            ) && earley_forest::has_pair(f.nodes[n].families, o.node, right);
        let gr = earley_shape::firm(m.columns, start);
        assert(earley_places::are_placed(g, gr, f, p, m.columns[p]));
        assert(earley_places::is_placed(g, gr, f, p, column[z]));
        assert(is_part(g, f, r, i, a, p, e, n, o.node, right));
        earley_complete::lemma_same_has(
            hist[e],
            earley_complete::next_item(o),
            earley_shape::mark(r as usize, (i + 1) as usize, a as usize),
        );
    } else {
        let t = choose|t: usize| #[trigger] on_link(g, m, hist, t, e) && m.arena[t as int].recognized == b
            && m.arena[t as int].key_start == p;
        lemma_on_link(g, start, tokens, types, m, hist, t, e);
        earley_chart::lemma_waiting(g, column, b);
        assert(earley_chart::waiting(g, column, b).contains(column[z]));
        assert(column[z] == m.arena[t as int].red);
        assert(is_crossed(g, m, hist, r, i, a, p, e, t));
        assert(is_skipped(g, m, hist, r, i + 1, a, e, t));
    }
}

/// A symbol that is complete leads on.
pub proof fn lemma_symbol(
    g: earley_chart::Context,
    start: SymbolId,
    tokens: Seq<tree::TokenModel>,
    types: Seq<SymbolId>,
    m: earley_chart::ChartModel,
    hist: Seq<Seq<Item>>,
    b: SymbolId,
    j: int,
    e: int,
    d: nat,
)
    requires
        is_whole_chart(g, start, tokens, types, m, hist),
        g.rules.len() <= usize::MAX,
        0 <= j <= e <= types.len(),
        b.ix() >= g.nt,
        earley_exact::begins(g, hist[j], b, j),
        analysis::derives_sym(g.rules, g.nt, b, types.subrange(j, e), d),
    ensures
        sym_led(g, m, hist, b, j, e),
    decreases d, 0int,
{
    let w = types.subrange(j, e);
    assert(d > 0);
    let r = choose|r: int|
        0 <= r < g.rules.len() && (#[trigger] g.rules[r]).origin == b && analysis::derives_seq(
            g.rules,
            g.nt,
            g.rules[r].expansion,
            w,
            (d - 1) as nat,
        );
    let expansion = g.rules[r].expansion;
    assert(expansion.take(expansion.len() as int) =~= expansion);
    assert(g.rules[r].origin.ix() >= g.nt);
    earley_complete::lemma_same_has(
        hist[j],
        earley_chart::fresh(r, j as usize),
        earley_shape::mark(r as usize, 0, j as usize),
    );
    lemma_prefix(
        g,
        start,
        tokens,
        types,
        m,
        hist,
        r,
        expansion.len() as int,
        j,
        e,
        (d - 1) as nat,
    );
    lemma_end_sym(g, start, tokens, types, m, hist, r, j, e);
}

/// A rule moves over what its next symbol derives.
pub proof fn lemma_advance(
    g: earley_chart::Context,
    start: SymbolId,
    tokens: Seq<tree::TokenModel>,
    types: Seq<SymbolId>,
    m: earley_chart::ChartModel,
    hist: Seq<Seq<Item>>,
    r: int,
    i: int,
    a: int,
    p: int,
    e: int,
    d: nat,
)
    requires
        is_whole_chart(g, start, tokens, types, m, hist),
        0 <= a <= p <= e <= types.len(),
        0 <= r < g.rules.len() <= usize::MAX,
        0 <= i < g.rules[r].expansion.len() <= usize::MAX,
        stands_at(g, m, hist, r, i, a, p),
        analysis::derives_sym(
            g.rules,
            g.nt,
            g.rules[r].expansion[i],
            types.subrange(p, e),
            d,
        ),
    ensures
        is_wired(g, m, hist, r, i, a, p, e),
        stands_at(g, m, hist, r, i + 1, a, e),
    decreases d, 1int,
{
    let b = g.rules[r].expansion[i];
    let x = earley_shape::mark(r as usize, i as usize, a as usize);
    let w = types.subrange(p, e);
    assert(b.ix() < g.n) by {
        assert(g.rules[r].expansion[i].ix() < g.n);
    }
    if earley_chart::has_item(hist[p], x) {
        if b.ix() < g.nt {
            assert(w.len() == 1);
            assert(w[0] == b);
            lemma_advance_token(g, start, tokens, types, m, hist, r, i, a, p);
        } else {
            let h = hist[p];
            let q = choose|q: int| 0 <= q < h.len() && earley_chart::same_item(#[trigger] h[q], x);
            assert(earley_exact::column_full(g, m, hist[p], p));
            assert(earley_exact::item_full(g, m, h, p, h[q]));
            assert(earley_chart::expected(g, h[q]) == Some(b));
            lemma_symbol(g, start, tokens, types, m, hist, b, p, e, d);
            lemma_advance_sym(g, start, tokens, types, m, hist, r, i, a, p, e);
        }
    } else {
        let t = choose|t: usize| #[trigger] is_skipped(g, m, hist, r, i, a, p, t);
        lemma_on_link(g, start, tokens, types, m, hist, t, p);
        assert(g.eps_only[g.rules[r].expansion[i].ix() as int]);
        assert(analysis::derives(g.rules, g.nt, b, w));
        assert(w.len() == 0);
        assert(p == e);
        assert(is_crossed(g, m, hist, r, i, a, p, e, t));
        assert(is_skipped(g, m, hist, r, i + 1, a, e, t));
    }
}

/// A rule moves over what its first symbols derive.
pub proof fn lemma_prefix(
    g: earley_chart::Context,
    start: SymbolId,
    tokens: Seq<tree::TokenModel>,
    types: Seq<SymbolId>,
    m: earley_chart::ChartModel,
    hist: Seq<Seq<Item>>,
    r: int,
    i: int,
    a: int,
    e: int,
    d: nat,
)
    requires
        is_whole_chart(g, start, tokens, types, m, hist),
        0 <= a <= e <= types.len(),
        0 <= r < g.rules.len() <= usize::MAX,
        0 <= i <= g.rules[r].expansion.len() <= usize::MAX,
        earley_chart::has_item(hist[a], earley_shape::mark(r as usize, 0, a as usize)),
        analysis::derives_seq(
            g.rules,
            g.nt,
            g.rules[r].expansion.take(i),
            types.subrange(a, e),
            d,
        ),
    ensures
        stands_at(g, m, hist, r, i, a, e),
    decreases d, i + 2,
{
    let syms = g.rules[r].expansion.take(i);
    let w = types.subrange(a, e);
    if i > 0 {
        let q = choose|q: int|
            0 <= q <= w.len() && analysis::derives_sym(
                g.rules,
                g.nt,
                syms.last(),
                #[trigger] w.skip(q),
                d,
            ) && analysis::derives_seq(g.rules, g.nt, syms.drop_last(), w.take(q), d);
        assert(syms.drop_last() =~= g.rules[r].expansion.take(i - 1));
        assert(syms.last() == g.rules[r].expansion[i - 1]);
        assert(w.take(q) =~= types.subrange(a, a + q));
        assert(w.skip(q) =~= types.subrange(a + q, e));
        lemma_prefix(g, start, tokens, types, m, hist, r, i - 1, a, a + q, d);
        lemma_advance(g, start, tokens, types, m, hist, r, i - 1, a, a + q, e, d);
    }
}

} // verus!
