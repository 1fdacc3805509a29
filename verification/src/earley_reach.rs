//! What the Earley chart reaches: all that the grammar derives along the input.

use vstd::prelude::*;
use crate::analysis;
use crate::earley_chart;
use crate::earley_complete;
use crate::earley_dynamic;
use crate::earley_exact;
use crate::earley_forest::{Item, NodeKey};
use crate::earley_leo;
use crate::earley_sound;
use crate::reading;
use crate::symbols;
use crate::symbols::SymbolId;

verus! {

/// A derivation of symbols begins with one of the first symbol.
pub proof fn lemma_front(
    rules: Seq<symbols::RuleModel>,
    nt: nat,
    syms: Seq<SymbolId>,
    w: Seq<SymbolId>,
    d: nat,
) -> (k: int)
    requires
        analysis::derives_seq(rules, nt, syms, w, d),
        syms.len() > 0,
    ensures
        0 <= k <= w.len(),
        analysis::derives_sym(rules, nt, syms[0], w.take(k), d),
        analysis::derives_seq(rules, nt, syms.skip(1), w.skip(k), d),
    decreases syms.len(),
{
    let q = choose|q: int|
        0 <= q <= w.len() && analysis::derives_sym(rules, nt, syms.last(), #[trigger] w.skip(q), d)
            && analysis::derives_seq(rules, nt, syms.drop_last(), w.take(q), d);
    if syms.len() == 1 {
        assert(w.take(q).len() == 0);
        assert(w.skip(0) =~= w);
        assert(w.take(w.len() as int) =~= w);
        assert(syms.skip(1).len() == 0);
        assert(w.skip(w.len() as int).len() == 0);
        w.len() as int
    } else {
        let k = lemma_front(rules, nt, syms.drop_last(), w.take(q), d);
        assert(syms.drop_last()[0] == syms[0]);
        assert(w.take(q).take(k) =~= w.take(k));
        let rest = syms.skip(1);
        let u = w.skip(k);
        assert(rest.last() == syms.last());
        assert(rest.drop_last() =~= syms.drop_last().skip(1));
        assert(u.skip(q - k) =~= w.skip(q));
        assert(u.take(q - k) =~= w.take(q).skip(k));
        assert(analysis::derives_sym(rules, nt, rest.last(), u.skip(q - k), d));
        k
    }
}

/// Symbols that derive nothing else derive the empty string.
pub proof fn lemma_empty_tail(
    g: earley_chart::Context,
    syms: Seq<SymbolId>,
    w: Seq<SymbolId>,
    d: nat,
)
    requires
        earley_sound::context_true(g),
        analysis::derives_seq(g.rules, g.nt, syms, w, d),
        forall|j: int|
            0 <= j < syms.len() ==> (#[trigger] syms[j]).ix() < g.n && g.eps_only[syms[j].ix() as int],
    ensures
        w.len() == 0,
    decreases syms.len(),
{
    if syms.len() > 0 {
        let q = choose|q: int|
            0 <= q <= w.len() && analysis::derives_sym(
                g.rules,
                g.nt,
                syms.last(),
                #[trigger] w.skip(q),
                d,
            ) && analysis::derives_seq(g.rules, g.nt, syms.drop_last(), w.take(q), d);
        assert(syms[syms.len() - 1].ix() < g.n);
        assert(analysis::derives(g.rules, g.nt, syms.last(), w.skip(q)));
        assert(analysis::derives(g.rules, g.nt, syms.last(), w.skip(q)));
        assert forall|j: int| 0 <= j < syms.drop_last().len() implies (
        #[trigger] syms.drop_last()[j]).ix() < g.n && g.eps_only[syms.drop_last()[j].ix() as int] by {
            assert(syms.drop_last()[j] == syms[j]);
        }
        lemma_empty_tail(g, syms.drop_last(), w.take(q), d);
    }
}

/// Whether the whole start symbol is among the items.
pub open spec fn has_whole(g: earley_chart::Context, start: SymbolId, h: Seq<Item>) -> bool {
    exists|k: int| 0 <= k < h.len() && #[trigger] earley_dynamic::is_whole(g, start, h[k])
}

/// Whether a symbol begun at column `j` is complete at column `e`.
pub open spec fn concluded(
    g: earley_chart::Context,
    start: SymbolId,
    m: earley_chart::ChartModel,
    hist: Seq<Seq<Item>>,
    a: SymbolId,
    j: int,
    e: int,
) -> bool {
    &&& earley_exact::settled(g, m, hist[e], a, j)
    &&& a == start && j == 0 ==> has_whole(g, start, hist[e])
}

/// Where the whole start symbol is in a column, it has a node.
pub proof fn lemma_whole_labelled(
    g: earley_chart::Context,
    start: SymbolId,
    l: reading::Reading,
    m: earley_chart::ChartModel,
    hist: Seq<Seq<Item>>,
    n: int,
    e: int,
)
    requires
        earley_exact::full_to(g, start, l, m, hist, n),
        0 <= e <= n,
        has_whole(g, start, hist[e]),
    ensures
        earley_complete::has_label(m.forest, NodeKey::Sym(start), 0, e as usize),
{
    let h = hist[e];
    let q = choose|q: int| 0 <= q < h.len() && #[trigger] earley_dynamic::is_whole(g, start, h[q]);
    assert(earley_exact::column_full(g, m, hist[e], e));
    assert(earley_exact::item_full(g, m, h, e, h[q]));
}

proof fn lemma_done_concluded(
    g: earley_chart::Context,
    start: SymbolId,
    l: reading::Reading,
    m: earley_chart::ChartModel,
    hist: Seq<Seq<Item>>,
    n: int,
    x: Item,
    e: int,
)
    requires
        earley_exact::full_to(g, start, l, m, hist, n),
        0 <= e <= n,
        earley_chart::has_item(hist[e], x),
        earley_chart::is_done(g, x),
    ensures
        concluded(g, start, m, hist, g.rules[x.rule as int].origin, x.origin as int, e),
{
    let h = hist[e];
    let q = choose|q: int| 0 <= q < h.len() && earley_chart::same_item(#[trigger] h[q], x);
    assert(earley_exact::column_full(g, m, hist[e], e));
    assert(earley_exact::item_full(g, m, h, e, h[q]));
    if g.rules[x.rule as int].origin == start && x.origin == 0 {
        assert(earley_dynamic::is_whole(g, start, h[q]));
    }
}

/// A link from an item's symbol leads on from the item's own symbol.
proof fn lemma_link_concluded(
    g: earley_chart::Context,
    start: SymbolId,
    l: reading::Reading,
    m: earley_chart::ChartModel,
    hist: Seq<Seq<Item>>,
    n: int,
    x: Item,
    b: SymbolId,
    t: usize,
    j: int,
    e: int,
)
    requires
        earley_sound::context_true(g),
        earley_exact::full_to(g, start, l, m, hist, n),
        0 <= j <= n,
        0 <= e <= n,
        earley_chart::has_item(hist[j], x),
        x.rule < g.rules.len(),
        earley_chart::expected(g, x) == Some(b),
        b.ix() >= g.nt,
        earley_chart::find_trans(m.trans[j], b, 0) == Some(t),
        t < m.arena.len(),
        earley_chart::has_item(hist[e], m.arena[t as int].top),
    ensures
        earley_chart::same_item(m.arena[t as int].red, x),
        earley_complete::link_true(g, m, start, n, t as int),
        concluded(g, start, m, hist, g.rules[x.rule as int].origin, x.origin as int, e),
{
    let y = m.arena[t as int];
    assert(earley_complete::link_true(g, m, start, n, t as int));
    earley_leo::lemma_find_trans(m.trans[j], b, 0);
    assert(earley_chart::row_ok(m, j, m.trans[j]));
    let k = choose|k: int| 0 <= k < m.trans[j].len() && #[trigger] m.trans[j][k] == (b, t);
    assert(m.trans[j][k].1 == t);
    assert(y.key_start == j && y.recognized == b);
    let h = hist[j];
    let q = choose|q: int| 0 <= q < h.len() && earley_chart::same_item(#[trigger] h[q], x);
    assert(earley_exact::column_full(g, m, hist[j], j));
    assert(earley_exact::item_full(g, m, h, j, h[q]));
    assert(earley_chart::expected(g, h[q]) == Some(b));
    let column = m.columns[j];
    assert(earley_chart::has_item(column, h[q]));
    let o = choose|o: int| 0 <= o < column.len() && earley_chart::same_item(#[trigger] column[o], h[q]);
    earley_chart::lemma_waiting(g, column, b);
    assert(earley_chart::waiting(g, column, b).contains(column[o]));
    assert(column[o] == y.red);
    match y.parent {
        Some(p) => {
            assert(earley_complete::link_true(g, m, start, n, p as int));
        },
        None => {
            let top = earley_leo::done_item(g, y.red);
            assert(earley_chart::is_done(g, top)) by {
                assert(g.rules[top.rule as int].expansion.len() <= usize::MAX) by {
                    assert(g.rules[x.rule as int].origin.ix() >= g.nt);
                }
            }
            lemma_done_concluded(g, start, l, m, hist, n, top, e);
        },
    }
}

/// An item that stands past what is ignored stands at its end.
proof fn lemma_stays(
    g: earley_chart::Context,
    start: SymbolId,
    l: reading::Reading,
    m: earley_chart::ChartModel,
    hist: Seq<Seq<Item>>,
    n: int,
    x: Item,
    j: int,
    e: int,
    d: nat,
)
    requires
        earley_exact::full_to(g, start, l, m, hist, n),
        0 <= j <= n,
        earley_chart::has_item(hist[j], x),
        earley_exact::stands(g, start, x),
        reading::leads(l, j, e, Seq::empty(), d),
    ensures
        e <= n ==> earley_chart::has_item(hist[e], x),
        e > n ==> leaps(g, start, l, hist, n),
    decreases d,
{
    if j != e {
        let w = Seq::<SymbolId>::empty();
        let c = choose|c: int|
            #[trigger] reading::gap_at(l, j, c) && reading::leads(l, c, e, w, (d - 1) as nat);
        let h = hist[j];
        let q = choose|q: int| 0 <= q < h.len() && earley_chart::same_item(#[trigger] h[q], x);
        assert(earley_exact::stands(g, start, h[q]));
        if c <= n {
            assert(earley_exact::stays(g, start, hist[j], hist[c]));
            earley_complete::lemma_same_has(hist[c], h[q], x);
            lemma_stays(g, start, l, m, hist, n, x, c, e, (d - 1) as nat);
        } else {
            assert(reading::is_read(l, c, e, w));
            reading::lemma_read_bounds(l, c, e, w);
            assert(leap(g, start, l, hist, n, j, c, h[q]));
        }
    }
}

/// Whether the item `x` of column `c` leads beyond column `n`, to `d`.
pub open spec fn leap(
    g: earley_chart::Context,
    start: SymbolId,
    l: reading::Reading,
    hist: Seq<Seq<Item>>,
    n: int,
    c: int,
    d: int,
    x: Item,
) -> bool {
    &&& 0 <= c <= n < d
    &&& hist[c].contains(x)
    &&& {
        ||| reading::gap_at(l, c, d) && earley_exact::stands(g, start, x)
        ||| earley_chart::wants_terminal(g, x) && reading::tok_at(
            l,
            c,
            d,
            earley_chart::expected(g, x)->0,
        )
    }
}

/// Whether an item of the columns up to `n` leads beyond them.
pub open spec fn leaps(
    g: earley_chart::Context,
    start: SymbolId,
    l: reading::Reading,
    hist: Seq<Seq<Item>>,
    n: int,
) -> bool {
    exists|c: int, d: int, x: Item| #[trigger] leap(g, start, l, hist, n, c, d, x)
}

/// What the rest of an item derives completes the item's symbol.
#[verifier::rlimit(40)]
proof fn lemma_reach(
    g: earley_chart::Context,
    start: SymbolId,
    l: reading::Reading,
    m: earley_chart::ChartModel,
    hist: Seq<Seq<Item>>,
    n: int,
    x: Item,
    j: int,
    e: int,
    w: Seq<SymbolId>,
    d: nat,
)
    requires
        earley_sound::context_true(g),
        earley_exact::full_to(g, start, l, m, hist, n),
        0 <= j <= e <= n,
        n <= usize::MAX,
        earley_chart::has_item(hist[j], x),
        x.rule < g.rules.len(),
        x.dot <= g.rules[x.rule as int].expansion.len(),
        reading::is_tight(l, j, e, w),
        analysis::derives_seq(
            g.rules,
            g.nt,
            g.rules[x.rule as int].expansion.skip(x.dot as int),
            w,
            d,
        ),
    ensures
        concluded(g, start, m, hist, g.rules[x.rule as int].origin, x.origin as int, e),
    decreases d, g.rules[x.rule as int].expansion.len() - x.dot,
{
    let expansion = g.rules[x.rule as int].expansion;
    let syms = expansion.skip(x.dot as int);
    assert(expansion.len() <= usize::MAX) by {
        assert(g.rules[x.rule as int].origin.ix() >= g.nt);
    }
    if syms.len() == 0 {
        assert(j == e);
        lemma_done_concluded(g, start, l, m, hist, n, x, e);
    } else {
        let b = expansion[x.dot as int];
        assert(syms[0] == b);
        let k = lemma_front(g.rules, g.nt, syms, w, d);
        let mid = reading::lemma_tight_split(l, j, e, w, k);
        reading::lemma_tight_bounds(l, j, mid, w.take(k));
        reading::lemma_tight_bounds(l, mid, e, w.skip(k));
        assert(syms.skip(1) =~= expansion.skip(x.dot + 1));
        let y = earley_complete::next_item(x);
        let h = hist[j];
        let q = choose|q: int| 0 <= q < h.len() && earley_chart::same_item(#[trigger] h[q], x);
        assert(earley_exact::column_full(g, m, hist[j], j));
        assert(earley_exact::item_full(g, m, h, j, h[q]));
        assert(earley_chart::expected(g, h[q]) == Some(b));
        if b.ix() < g.nt {
            lemma_shift(g, start, l, m, hist, n, x, b, j, mid, w.take(k));
            lemma_reach(g, start, l, m, hist, n, y, mid, e, w.skip(k), d);
        } else {
            lemma_symbol_reach(g, start, l, m, hist, n, b, j, mid, w.take(k), d);
            let by_link = match earley_chart::find_trans(m.trans[j], b, 0) {
                Some(t) => t < m.arena.len() && earley_chart::has_item(
                    hist[mid],
                    m.arena[t as int].top,
                ),
                None => false,
            };
            if by_link {
                let t = earley_chart::find_trans(m.trans[j], b, 0)->0;
                lemma_link_concluded(g, start, l, m, hist, n, x, b, t, j, mid);
                lemma_link_rest(g, start, l, m, hist, n, x, t as int, w.skip(k), d);
                assert(mid == e);
            } else {
                let column = m.columns[j];
                assert(earley_chart::has_item(column, h[q]));
                let o = choose|o: int|
                    0 <= o < column.len() && earley_chart::same_item(#[trigger] column[o], h[q]);
                assert(earley_chart::expected(g, m.columns[j][o]) == Some(b));
                earley_complete::lemma_same_has(
                    hist[mid],
                    earley_complete::next_item(column[o]),
                    y,
                );
                lemma_reach(g, start, l, m, hist, n, y, mid, e, w.skip(k), d);
            }
        }
    }
}

/// What stands behind the symbol of a link derives nothing.
proof fn lemma_link_rest(
    g: earley_chart::Context,
    start: SymbolId,
    l: reading::Reading,
    m: earley_chart::ChartModel,
    hist: Seq<Seq<Item>>,
    n: int,
    x: Item,
    t: int,
    w: Seq<SymbolId>,
    d: nat,
)
    requires
        earley_sound::context_true(g),
        x.rule < g.rules.len(),
        x.dot < g.rules[x.rule as int].expansion.len(),
        earley_chart::same_item(m.arena[t].red, x),
        earley_complete::link_true(g, m, start, n, t),
        analysis::derives_seq(
            g.rules,
            g.nt,
            g.rules[x.rule as int].expansion.skip(x.dot + 1),
            w,
            d,
        ),
    ensures
        w.len() == 0,
{
    let expansion = g.rules[x.rule as int].expansion;
    let rest = expansion.skip(x.dot + 1);
    assert forall|z: int| 0 <= z < rest.len() implies (#[trigger] rest[z]).ix() < g.n
        && g.eps_only[rest[z].ix() as int] by {
        assert(rest[z] == expansion[x.dot + 1 + z]);
        assert(g.rules[x.rule as int].expansion[x.dot + 1 + z].ix() < g.n);
    }
    lemma_empty_tail(g, rest, w, d);
}

/// An item that waits for a terminal moves over its token, past what is ignored.
proof fn lemma_shift(
    g: earley_chart::Context,
    start: SymbolId,
    l: reading::Reading,
    m: earley_chart::ChartModel,
    hist: Seq<Seq<Item>>,
    n: int,
    x: Item,
    b: SymbolId,
    j: int,
    mid: int,
    w: Seq<SymbolId>,
)
    requires
        earley_exact::full_to(g, start, l, m, hist, n),
        0 <= j <= n,
        earley_chart::has_item(hist[j], x),
        earley_chart::expected(g, x) == Some(b),
        b.ix() < g.nt,
        reading::is_tight(l, j, mid, w),
        w == seq![b],
    ensures
        mid <= n ==> earley_chart::has_item(hist[mid], earley_complete::next_item(x)),
        mid > n ==> leaps(g, start, l, hist, n),
{
    let (p, c) = choose|p: int, c: int|
        reading::is_read(l, j, p, Seq::empty()) && #[trigger] reading::tok_at(l, p, c, w[0])
            && reading::is_tight(l, c, mid, w.skip(1));
    assert(w.skip(1).len() == 0);
    assert(c == mid);
    let d = choose|d: nat| #[trigger] reading::leads(l, j, p, Seq::empty(), d);
    lemma_stays(g, start, l, m, hist, n, x, j, p, d);
    if p <= n {
        let h = hist[p];
        let q = choose|q: int| 0 <= q < h.len() && earley_chart::same_item(#[trigger] h[q], x);
        if mid <= n {
            assert(earley_exact::carried(g, hist[p], b, hist[mid]));
            assert(earley_chart::expected(g, h[q]) == Some(b));
            earley_complete::lemma_same_has(
                hist[mid],
                earley_complete::next_item(h[q]),
                earley_complete::next_item(x),
            );
        } else {
            assert(leap(g, start, l, hist, n, p, mid, h[q]));
        }
    }
}

/// What a symbol derives from a column where it is expected completes it.
pub proof fn lemma_symbol_reach(
    g: earley_chart::Context,
    start: SymbolId,
    l: reading::Reading,
    m: earley_chart::ChartModel,
    hist: Seq<Seq<Item>>,
    n: int,
    b: SymbolId,
    j: int,
    e: int,
    w: Seq<SymbolId>,
    d: nat,
)
    requires
        earley_sound::context_true(g),
        earley_exact::full_to(g, start, l, m, hist, n),
        0 <= j <= e <= n,
        n <= usize::MAX,
        b.ix() >= g.nt,
        earley_exact::begins(g, hist[j], b, j),
        reading::is_tight(l, j, e, w),
        analysis::derives_sym(g.rules, g.nt, b, w, d),
    ensures
        concluded(g, start, m, hist, b, j, e),
    decreases d, 0int,
{
    assert(d > 0);
    let r = choose|r: int|
        0 <= r < g.rules.len() && (#[trigger] g.rules[r]).origin == b && analysis::derives_seq(
            g.rules,
            g.nt,
            g.rules[r].expansion,
            w,
            (d - 1) as nat,
        );
    let x = earley_chart::fresh(r, j as usize);
    assert(earley_chart::has_item(hist[j], x));
    assert(g.rules[r].expansion.skip(0) =~= g.rules[r].expansion);
    lemma_reach(g, start, l, m, hist, n, x, j, e, w, (d - 1) as nat);
}

/// Where the rest of an item derives tokens beyond the last column, an item of the
/// columns leads there.
#[verifier::rlimit(40)]
pub proof fn lemma_wants(
    g: earley_chart::Context,
    start: SymbolId,
    l: reading::Reading,
    m: earley_chart::ChartModel,
    hist: Seq<Seq<Item>>,
    n: int,
    x: Item,
    j: int,
    e: int,
    w: Seq<SymbolId>,
    d: nat,
)
    requires
        earley_sound::context_true(g),
        earley_exact::full_to(g, start, l, m, hist, n),
        0 <= j <= n < e,
        n <= usize::MAX,
        earley_chart::has_item(hist[j], x),
        x.rule < g.rules.len(),
        x.dot <= g.rules[x.rule as int].expansion.len(),
        reading::is_tight(l, j, e, w),
        analysis::derives_seq(
            g.rules,
            g.nt,
            g.rules[x.rule as int].expansion.skip(x.dot as int),
            w,
            d,
        ),
    ensures
        leaps(g, start, l, hist, n),
    decreases d, g.rules[x.rule as int].expansion.len() - x.dot,
{
    let expansion = g.rules[x.rule as int].expansion;
    let syms = expansion.skip(x.dot as int);
    assert(expansion.len() <= usize::MAX) by {
        assert(g.rules[x.rule as int].origin.ix() >= g.nt);
    }
    if syms.len() > 0 {
        let b = expansion[x.dot as int];
        assert(syms[0] == b);
        let k = lemma_front(g.rules, g.nt, syms, w, d);
        let mid = reading::lemma_tight_split(l, j, e, w, k);
        reading::lemma_tight_bounds(l, j, mid, w.take(k));
        reading::lemma_tight_bounds(l, mid, e, w.skip(k));
        assert(syms.skip(1) =~= expansion.skip(x.dot + 1));
        let y = earley_complete::next_item(x);
        let h = hist[j];
        let q = choose|q: int| 0 <= q < h.len() && earley_chart::same_item(#[trigger] h[q], x);
        assert(earley_exact::column_full(g, m, hist[j], j));
        assert(earley_exact::item_full(g, m, h, j, h[q]));
        assert(earley_chart::expected(g, h[q]) == Some(b));
        if b.ix() < g.nt {
            lemma_shift(g, start, l, m, hist, n, x, b, j, mid, w.take(k));
            if mid <= n {
                lemma_wants(g, start, l, m, hist, n, y, mid, e, w.skip(k), d);
            }
        } else if mid > n {
            assert(d > 0);
            let v = w.take(k);
            let r = choose|r: int|
                0 <= r < g.rules.len() && (#[trigger] g.rules[r]).origin == b
                    && analysis::derives_seq(
                    g.rules,
                    g.nt,
                    g.rules[r].expansion,
                    v,
                    (d - 1) as nat,
                );
            let z = earley_chart::fresh(r, j as usize);
            assert(earley_chart::has_item(hist[j], z));
            assert(g.rules[r].expansion.skip(0) =~= g.rules[r].expansion);
            lemma_wants(g, start, l, m, hist, n, z, j, mid, v, (d - 1) as nat);
        } else {
            lemma_symbol_reach(g, start, l, m, hist, n, b, j, mid, w.take(k), d);
            let by_link = match earley_chart::find_trans(m.trans[j], b, 0) {
                Some(t) => t < m.arena.len() && earley_chart::has_item(
                    hist[mid],
                    m.arena[t as int].top,
                ),
                None => false,
            };
            if by_link {
                let t = earley_chart::find_trans(m.trans[j], b, 0)->0;
                lemma_link_concluded(g, start, l, m, hist, n, x, b, t, j, mid);
                lemma_link_rest(g, start, l, m, hist, n, x, t as int, w.skip(k), d);
            } else {
                let column = m.columns[j];
                assert(earley_chart::has_item(column, h[q]));
                let o = choose|o: int|
                    0 <= o < column.len() && earley_chart::same_item(#[trigger] column[o], h[q]);
                assert(earley_chart::expected(g, m.columns[j][o]) == Some(b));
                earley_complete::lemma_same_has(
                    hist[mid],
                    earley_complete::next_item(column[o]),
                    y,
                );
                lemma_wants(g, start, l, m, hist, n, y, mid, e, w.skip(k), d);
            }
        }
    }
}

/// Where the start symbol derives what is read along the whole input, the chart of
/// all columns has its node; and a chart of fewer columns leads beyond them.
pub proof fn lemma_sentence_reached(
    g: earley_chart::Context,
    start: SymbolId,
    l: reading::Reading,
    m: earley_chart::ChartModel,
    hist: Seq<Seq<Item>>,
    n: int,
    w: Seq<SymbolId>,
)
    requires
        earley_sound::context_true(g),
        start.ix() >= g.nt,
        earley_exact::full_to(g, start, l, m, hist, n),
        n <= usize::MAX,
        reading::is_read(l, 0, l.size as int, w),
        analysis::derives(g.rules, g.nt, start, w),
    ensures
        n == l.size ==> earley_complete::has_label(
            m.forest,
            NodeKey::Sym(start),
            0,
            n as usize,
        ),
        n < l.size ==> leaps(g, start, l, hist, n),
{
    let s = choose|s: nat| #[trigger] reading::leads(l, 0, l.size as int, w, s);
    let e = reading::lemma_tighten(l, 0, l.size as int, w, s);
    reading::lemma_tight_bounds(l, 0, e, w);
    reading::lemma_read_bounds(l, e, l.size as int, Seq::empty());
    let d = choose|d: nat| #[trigger] analysis::derives_sym(g.rules, g.nt, start, w, d);
    if e <= n {
        lemma_symbol_reach(g, start, l, m, hist, n, start, 0, e, w, d);
        let h = hist[e];
        let q = choose|q: int| 0 <= q < h.len() && #[trigger] earley_dynamic::is_whole(g, start, h[q]);
        assert(earley_chart::same_item(h[q], h[q]));
        assert(earley_chart::has_item(h, h[q]));
        let c = choose|c: nat| #[trigger] reading::leads(l, e, l.size as int, Seq::empty(), c);
        lemma_stays(g, start, l, m, hist, n, h[q], e, l.size as int, c);
        if n == l.size {
            let z = hist[n];
            let o = choose|o: int| 0 <= o < z.len() && earley_chart::same_item(#[trigger] z[o], h[q]);
            assert(earley_dynamic::is_whole(g, start, z[o]));
            lemma_whole_labelled(g, start, l, m, hist, n, n);
        }
    } else {
        let r = choose|r: int|
            0 <= r < g.rules.len() && (#[trigger] g.rules[r]).origin == start
                && analysis::derives_seq(
                g.rules,
                g.nt,
                g.rules[r].expansion,
                w,
                (d - 1) as nat,
            );
        let x = earley_chart::fresh(r, 0);
        assert(earley_chart::has_item(hist[0], x));
        assert(g.rules[r].expansion.skip(0) =~= g.rules[r].expansion);
        lemma_wants(g, start, l, m, hist, n, x, 0, e, w, (d - 1) as nat);
    }
}

} // verus!
