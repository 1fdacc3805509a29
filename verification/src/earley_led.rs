//! Whatever the Earley chart moves an item over stands among the families of its
//! forest, or behind a chain that was cut short.

use vstd::prelude::*;
use crate::earley_chart;
use crate::earley_complete;
use crate::earley_exact;
use crate::earley_fill;
use crate::earley_forest;
use crate::earley_forest::{ForestRef, Item, NodeKey, Packed, Trans};
use crate::earley_leo;
use crate::earley_places;
use crate::earley_recognizer;
use crate::earley_shape;
use crate::earley_sound;
use crate::earley_sprung;
use crate::reading;
use crate::symbols::SymbolId;
use crate::tree;

verus! {

// ---------------------------------------------------------------------------
// Families and cut chains

/// Whether the forest has the family by which an item is moved over the symbol
/// after its dot.
pub open spec fn is_moved(
    g: earley_chart::Context,
    f: earley_forest::ForestModel,
    o: Item,
    right: ForestRef,
    end: usize,
) -> bool {
    exists|n: int|
        0 <= n < f.nodes.len() && earley_forest::labelled(
            #[trigger] f.nodes[n],
            earley_chart::key_at(g, o.rule, o.dot + 1),
            o.origin,
            end,
        ) && earley_forest::has_pair(f.nodes[n].families, o.node, right)
}

/// Whether a chain that begins with link `t` and leads to the item `top` was cut
/// short at column `end`.
pub open spec fn is_cut(
    g: earley_chart::Context,
    f: earley_forest::ForestModel,
    top: Item,
    t: usize,
    end: usize,
) -> bool {
    exists|n: int, k: int|
        0 <= n < f.nodes.len() && 0 <= k < f.nodes[n].paths.len() && earley_forest::labelled(
            f.nodes[n],
            earley_chart::key_at(g, top.rule, top.dot as int),
            top.origin,
            end,
        ) && (#[trigger] f.nodes[n].paths[k]).0 == t && f.nodes[n].paths[k].2 == end
}

/// Whether the node of a symbol that spans nothing has the family of an empty rule.
pub open spec fn has_empty(
    f: earley_forest::ForestModel,
    a: SymbolId,
    start: usize,
    end: usize,
) -> bool {
    exists|n: int|
        0 <= n < f.nodes.len() && earley_forest::labelled(
            #[trigger] f.nodes[n],
            NodeKey::Sym(a),
            start,
            end,
        ) && earley_forest::has_pair(
            f.nodes[n].families,
            ForestRef::Nothing,
            ForestRef::Nothing,
        )
}

/// A pair of parts stays as the forest grows.
pub proof fn lemma_pair_grown(
    f: earley_forest::ForestModel,
    h: earley_forest::ForestModel,
    n: int,
    left: ForestRef,
    right: ForestRef,
)
    requires
        earley_shape::pairs_kept(f, h),
        0 <= n < f.nodes.len(),
        earley_forest::has_pair(f.nodes[n].families, left, right),
    ensures
        earley_forest::has_pair(h.nodes[n].families, left, right),
{
    let fs = f.nodes[n].families;
    let q = choose|q: int|
        0 <= q < fs.len() && (#[trigger] fs[q]).left == left && fs[q].right == right;
    assert(f.nodes[n].families[q].left == left);
}

/// Families stay as the forest grows.
pub proof fn lemma_moved_grown(
    g: earley_chart::Context,
    f: earley_forest::ForestModel,
    h: earley_forest::ForestModel,
    o: Item,
    right: ForestRef,
    end: usize,
)
    requires
        earley_forest::extends(f, h),
        earley_shape::pairs_kept(f, h),
        is_moved(g, f, o, right, end),
    ensures
        is_moved(g, h, o, right, end),
{
    let key = earley_chart::key_at(g, o.rule, o.dot + 1);
    let n = choose|n: int|
        0 <= n < f.nodes.len() && earley_forest::labelled(#[trigger] f.nodes[n], key, o.origin, end)
            && earley_forest::has_pair(f.nodes[n].families, o.node, right);
    lemma_pair_grown(f, h, n, o.node, right);
    assert(earley_forest::labelled(h.nodes[n], key, o.origin, end));
}

/// The families of empty rules stay as the forest grows.
pub proof fn lemma_empty_grown(
    f: earley_forest::ForestModel,
    h: earley_forest::ForestModel,
    a: SymbolId,
    start: usize,
    end: usize,
)
    requires
        earley_forest::extends(f, h),
        earley_shape::pairs_kept(f, h),
        has_empty(f, a, start, end),
    ensures
        has_empty(h, a, start, end),
{
    let n = choose|n: int|
        0 <= n < f.nodes.len() && earley_forest::labelled(
            #[trigger] f.nodes[n],
            NodeKey::Sym(a),
            start,
            end,
        ) && earley_forest::has_pair(
            f.nodes[n].families,
            ForestRef::Nothing,
            ForestRef::Nothing,
        );
    lemma_pair_grown(f, h, n, ForestRef::Nothing, ForestRef::Nothing);
    assert(earley_forest::labelled(h.nodes[n], NodeKey::Sym(a), start, end));
}

/// Cut chains stay as the forest grows.
pub proof fn lemma_cut_grown(
    g: earley_chart::Context,
    f: earley_forest::ForestModel,
    h: earley_forest::ForestModel,
    top: Item,
    t: usize,
    end: usize,
)
    requires
        earley_shape::grown(f, h),
        is_cut(g, f, top, t, end),
    ensures
        is_cut(g, h, top, t, end),
{
    let key = earley_chart::key_at(g, top.rule, top.dot as int);
    let (n, k) = choose|n: int, k: int|
        0 <= n < f.nodes.len() && 0 <= k < f.nodes[n].paths.len() && earley_forest::labelled(
            f.nodes[n],
            key,
            top.origin,
            end,
        ) && (#[trigger] f.nodes[n].paths[k]).0 == t && f.nodes[n].paths[k].2 == end;
    assert(earley_shape::path_kept(f, h, n, k));
    assert(earley_forest::labelled(h.nodes[n], f.nodes[n].key, f.nodes[n].start, f.nodes[n].end));
    assert(h.nodes[n].paths[k].0 == t);
}

/// A family that is entered is there.
pub proof fn lemma_family_in(
    f: earley_forest::ForestModel,
    id: int,
    p: Packed,
    order: usize,
)
    requires
        earley_shape::eps_kept(f),
        0 <= id < f.nodes.len(),
    ensures
        earley_forest::has_pair(
            earley_forest::family_added(f, id, p, order).nodes[id].families,
            p.left,
            p.right,
        ),
{
    let n = f.nodes[id];
    let m = earley_forest::with_family(n, p, order);
    if p.left is Nothing && p.right is Nothing {
        match n.eps {
            None => {
                assert(m.families[n.families.len() as int] == p);
            },
            Some((k, best)) => {
                assert(n.families[k as int].left is Nothing);
                assert(m.families[k as int].left == p.left && m.families[k as int].right
                    == p.right);
            },
        }
    } else if !earley_forest::has_pair(n.families, p.left, p.right) {
        assert(m.families[n.families.len() as int] == p);
    }
}

/// Moving an item enters its family.
pub proof fn lemma_moved_in(
    g: earley_chart::Context,
    f: earley_forest::ForestModel,
    o: Item,
    right: ForestRef,
    end: usize,
)
    requires
        earley_shape::eps_kept(f),
    ensures
        is_moved(g, earley_chart::moved(g, f, o, right, end).0, o, right, end),
{
    let key = earley_chart::key_at(g, o.rule, o.dot + 1);
    let (f1, id) = earley_forest::got(f, key, o.origin, end);
    earley_forest::lemma_find_node(f.nodes, key, o.origin, end, 0);
    let p = earley_chart::moved_family(o, right);
    let order = g.rules[o.rule as int].order;
    assert(earley_shape::eps_kept(f1));
    lemma_family_in(f1, id, p, order);
    let h = earley_forest::family_added(f1, id, p, order);
    assert(earley_forest::labelled(h.nodes[id], key, o.origin, end));
}

// ---------------------------------------------------------------------------
// What a symbol has led to

/// Whether every item of column `j` that waits for `a` is moved over the node `id`,
/// to column `c` with the items `h`.
pub open spec fn are_moved(
    g: earley_chart::Context,
    m: earley_chart::ChartModel,
    h: Seq<Item>,
    c: int,
    a: SymbolId,
    j: int,
    id: usize,
) -> bool {
    forall|k: int|
        0 <= k < m.columns[j].len() && earley_chart::expected(g, #[trigger] m.columns[j][k])
            == Some(a) ==> is_moved(
            g,
            m.forest,
            m.columns[j][k],
            ForestRef::Node(id),
            c as usize,
        ) && earley_chart::has_item(h, earley_complete::next_item(m.columns[j][k]))
}

/// Whether the chain from `a`, begun at column `j`, was cut short at column `c` with
/// the items `h`.
pub open spec fn is_linked(
    g: earley_chart::Context,
    m: earley_chart::ChartModel,
    h: Seq<Item>,
    c: int,
    a: SymbolId,
    j: int,
) -> bool {
    match earley_chart::find_trans(m.trans[j], a, 0) {
        Some(t) => {
            &&& t < m.arena.len()
            &&& is_cut(g, m.forest, m.arena[t as int].top, t, c as usize)
            &&& earley_chart::has_item(h, m.arena[t as int].top)
        },
        None => false,
    }
}

/// Whether the symbol `a`, begun at column `j` and complete at column `c` with the
/// items `h`, has led to families or to a cut chain.
pub open spec fn is_led(
    g: earley_chart::Context,
    m: earley_chart::ChartModel,
    h: Seq<Item>,
    c: int,
    a: SymbolId,
    j: int,
) -> bool {
    ||| j < c && is_linked(g, m, h, c, a, j)
    ||| exists|id: usize|
        earley_shape::is_at(
            m.forest,
            ForestRef::Node(id),
            NodeKey::Sym(a),
            j as usize,
            c as usize,
        ) && #[trigger] are_moved(g, m, h, c, a, j, id)
}

/// Whether a complete item of column `c` with the items `h` has led to families or
/// to a cut chain.
pub open spec fn done_led(
    g: earley_chart::Context,
    m: earley_chart::ChartModel,
    h: Seq<Item>,
    c: int,
    x: Item,
) -> bool {
    let a = g.rules[x.rule as int].origin;
    earley_chart::is_done(g, x) ==> {
        &&& is_led(g, m, h, c, a, x.origin as int)
        &&& x.dot == 0 && x.origin == c ==> has_empty(m.forest, a, x.origin, c as usize)
    }
}

/// Whether every complete item of column `c` has led to families or to a cut chain.
pub open spec fn column_led(
    g: earley_chart::Context,
    m: earley_chart::ChartModel,
    h: Seq<Item>,
    c: int,
) -> bool {
    forall|k: int| 0 <= k < m.columns[c].len() ==> done_led(g, m, h, c, #[trigger] m.columns[c][k])
}

/// Whether items that are in `h` are in `z`.
pub open spec fn items_kept(h: Seq<Item>, z: Seq<Item>) -> bool {
    forall|x: Item| #[trigger]
        earley_chart::has_item(h, x) ==> earley_chart::has_item(z, x)
}

/// What a symbol has led to stays as the chart grows.
pub proof fn lemma_led_stays(
    g: earley_chart::Context,
    m: earley_chart::ChartModel,
    n: earley_chart::ChartModel,
    h: Seq<Item>,
    z: Seq<Item>,
    c: int,
    a: SymbolId,
    j: int,
)
    requires
        is_led(g, m, h, c, a, j),
        earley_shape::grown(m.forest, n.forest),
        n.columns[j] == m.columns[j],
        earley_complete::continues(m.trans[j], n.trans[j]),
        earley_complete::continues(m.arena, n.arena),
        items_kept(h, z),
    ensures
        is_led(g, n, z, c, a, j),
{
    if j < c && is_linked(g, m, h, c, a, j) {
        let t = earley_chart::find_trans(m.trans[j], a, 0)->0;
        earley_complete::lemma_find_trans_continues(m.trans[j], n.trans[j], a, 0);
        earley_complete::lemma_continues_index(m.arena, n.arena, t as int);
        let top = m.arena[t as int].top;
        lemma_cut_grown(g, m.forest, n.forest, top, t, c as usize);
        assert(earley_chart::has_item(z, top));
    } else {
        let id = choose|id: usize|
            earley_shape::is_at(
                m.forest,
                ForestRef::Node(id),
                NodeKey::Sym(a),
                j as usize,
                c as usize,
            ) && #[trigger] are_moved(g, m, h, c, a, j, id);
        earley_shape::lemma_at_grown(
            m.forest,
            n.forest,
            ForestRef::Node(id),
            NodeKey::Sym(a),
            j as usize,
            c as usize,
        );
        assert(are_moved(g, n, z, c, a, j, id)) by {
            assert forall|k: int|
                0 <= k < n.columns[j].len() && earley_chart::expected(g, #[trigger] n.columns[j][k])
                    == Some(a) implies is_moved(
                g,
                n.forest,
                n.columns[j][k],
                ForestRef::Node(id),
                c as usize,
            ) && earley_chart::has_item(z, earley_complete::next_item(n.columns[j][k])) by {
                let o = m.columns[j][k];
                assert(is_moved(g, m.forest, o, ForestRef::Node(id), c as usize));
                lemma_moved_grown(
                    g,
                    m.forest,
                    n.forest,
                    o,
                    ForestRef::Node(id),
                    c as usize,
                );
                assert(earley_chart::has_item(h, earley_complete::next_item(o)));
            }
        }
    }
}

/// What a column has led to stays as further columns are made.
pub proof fn lemma_column_led_stays(
    g: earley_chart::Context,
    m: earley_chart::ChartModel,
    n: earley_chart::ChartModel,
    h: Seq<Item>,
    c: int,
)
    requires
        column_led(g, m, h, c),
        0 <= c < m.columns.len() <= n.columns.len(),
        m.trans.len() == m.columns.len(),
        forall|k: int|
            0 <= k < m.columns[c].len() ==> (#[trigger] m.columns[c][k]).origin <= c,
        earley_shape::grown(m.forest, n.forest),
        forall|q: int| 0 <= q < m.columns.len() ==> #[trigger] n.columns[q] == m.columns[q],
        forall|q: int|
            0 <= q < m.trans.len() ==> earley_complete::continues(
                m.trans[q],
                #[trigger] n.trans[q],
            ),
        earley_complete::continues(m.arena, n.arena),
    ensures
        column_led(g, n, h, c),
{
    assert(n.columns[c] == m.columns[c]);
    assert forall|k: int| 0 <= k < n.columns[c].len() implies done_led(
        g,
        n,
        h,
        c,
        #[trigger] n.columns[c][k],
    ) by {
        let x = m.columns[c][k];
        assert(done_led(g, m, h, c, m.columns[c][k]));
        if earley_chart::is_done(g, x) {
            let a = g.rules[x.rule as int].origin;
            let j = x.origin as int;
            assert(earley_complete::continues(m.trans[j], n.trans[j]));
            lemma_led_stays(g, m, n, h, h, c, a, j);
            if x.dot == 0 && x.origin == c {
                lemma_empty_grown(m.forest, n.forest, a, x.origin, c as usize);
            }
        }
    }
}

// ---------------------------------------------------------------------------
// Processing a column

/// All items of column `i` and those that wait for a terminal.
pub open spec fn row(m: earley_chart::ChartModel, i: int) -> Seq<Item> {
    m.columns[i] + m.scan
}

/// Whether a complete item begun before column `i` has led on, and an empty rule has
/// its family.
pub open spec fn item_led(
    g: earley_chart::Context,
    w: earley_recognizer::Work,
    i: usize,
    x: Item,
) -> bool {
    let a = g.rules[x.rule as int].origin;
    earley_chart::is_done(g, x) ==> {
        &&& x.origin < i ==> is_led(g, w.chart, row(w.chart, i as int), i as int, a, x.origin as int)
        &&& x.dot == 0 && x.origin == i ==> has_empty(w.chart.forest, a, i, i)
    }
}

/// Whether an item has been moved over a symbol that derives nothing here, if that
/// is known.
pub open spec fn item_passed(
    g: earley_chart::Context,
    w: earley_recognizer::Work,
    i: usize,
    x: Item,
) -> bool {
    match earley_chart::expected(g, x) {
        None => true,
        Some(s) => s.ix() >= g.nt ==> (w.held[s.ix() as int] matches Some(h) ==> is_moved(
            g,
            w.chart.forest,
            x,
            ForestRef::Node(h),
            i,
        ) && earley_complete::present(w.chart, i as int, earley_complete::next_item(x))),
    }
}

/// Whether each item of column `i` is yet to be processed, or has led on.
pub open spec fn work_led(
    g: earley_chart::Context,
    w: earley_recognizer::Work,
    i: usize,
) -> bool {
    let column = w.chart.columns[i as int];
    forall|k: int|
        0 <= k < column.len() ==> w.stack.contains(#[trigger] column[k]) || item_led(
            g,
            w,
            i,
            column[k],
        ) && item_passed(g, w, i, column[k])
}

proof fn lemma_rows_kept(m: earley_chart::ChartModel, n: earley_chart::ChartModel, i: int)
    requires
        earley_complete::more_in(m, n, i),
    ensures
        items_kept(row(m, i), row(n, i)),
{
    assert forall|x: Item| #[trigger]
        earley_chart::has_item(row(m, i), x) implies earley_chart::has_item(row(n, i), x) by {
        earley_exact::lemma_present_all(m, i, x);
        earley_complete::lemma_present_stays(m, n, i, x);
        earley_exact::lemma_present_all(n, i, x);
    }
}

proof fn lemma_item_led_stays(
    g: earley_chart::Context,
    w: earley_recognizer::Work,
    v: earley_recognizer::Work,
    i: usize,
    x: Item,
)
    requires
        item_led(g, w, i, x),
        earley_complete::more_in(w.chart, v.chart, i as int),
        w.chart.trans.len() == w.chart.columns.len(),
        earley_shape::grown(w.chart.forest, v.chart.forest),
    ensures
        item_led(g, v, i, x),
{
    let a = g.rules[x.rule as int].origin;
    if earley_chart::is_done(g, x) {
        if x.origin < i {
            let j = x.origin as int;
            lemma_rows_kept(w.chart, v.chart, i as int);
            assert(v.chart.columns[j] == w.chart.columns[j]);
            assert(earley_complete::continues(w.chart.trans[j], v.chart.trans[j]));
            lemma_led_stays(
                g,
                w.chart,
                v.chart,
                row(w.chart, i as int),
                row(v.chart, i as int),
                i as int,
                a,
                j,
            );
        }
        if x.dot == 0 && x.origin == i {
            lemma_empty_grown(w.chart.forest, v.chart.forest, a, i, i);
        }
    }
}

/// Each of the items that are moved has its family.
proof fn lemma_all_moved(
    g: earley_chart::Context,
    gr: earley_shape::Ground,
    m: earley_chart::ChartModel,
    i: usize,
    stack: Seq<Item>,
    items: Seq<Item>,
    right: ForestRef,
    c: int,
    s: SymbolId,
)
    requires
        earley_chart::context_ok(g),
        earley_shape::flags_closed(g),
        earley_places::chart_shape(g, gr, m, i as int),
        earley_places::are_placed(g, gr, m.forest, i as int, stack),
        earley_places::are_placed(g, gr, m.forest, c, items),
        forall|k: int|
            0 <= k < items.len() ==> earley_chart::expected(g, #[trigger] items[k]) == Some(s),
        s.ix() >= g.nt,
        c <= i,
        c < i ==> forall|k: int|
            0 <= k < items.len() ==> earley_places::is_entered(m.columns, c, #[trigger] items[k]),
        earley_shape::is_at(m.forest, right, NodeKey::Sym(s), c as usize, i),
        earley_shape::within_limits(
            earley_chart::all_advanced(g, m, i, stack, items, right).0.forest,
        ),
    ensures
        forall|k: int|
            0 <= k < items.len() ==> is_moved(
                g,
                earley_chart::all_advanced(g, m, i, stack, items, right).0.forest,
                #[trigger] items[k],
                right,
                i,
            ),
    decreases items.len(),
{
    if items.len() > 0 {
        let front = items.drop_last();
        let (m1, s1) = earley_chart::all_advanced(g, m, i, stack, front, right);
        let (n, t) = earley_chart::all_advanced(g, m, i, stack, items, right);
        let o = items.last();
        assert(earley_places::is_placed(g, gr, m.forest, c, items[items.len() - 1]));
        assert(earley_chart::expected(g, items[items.len() - 1]) == Some(s));
        assert(c < i ==> earley_places::is_entered(m.columns, c, items[items.len() - 1]));
        assert forall|k: int| 0 <= k < front.len() implies earley_places::is_placed(
            g,
            gr,
            m.forest,
            c,
            #[trigger] front[k],
        ) && earley_chart::expected(g, front[k]) == Some(s) && (c < i
            ==> earley_places::is_entered(m.columns, c, front[k])) by {
            assert(c < i ==> earley_places::is_entered(m.columns, c, items[k]));
            assert(earley_places::is_placed(g, gr, m.forest, c, items[k]));
            assert(earley_chart::expected(g, items[k]) == Some(s));
        }
        earley_places::lemma_advanced_forest(g, m1, i, s1, o, right);
        earley_places::lemma_moved_sizes(g, m1.forest, o, right, i);
        earley_shape::lemma_sizes_limits(m1.forest, n.forest);
        earley_places::lemma_all_advanced_shape(g, gr, m, i, stack, front, right, c, s);
        lemma_all_moved(g, gr, m, i, stack, front, right, c, s);
        earley_shape::lemma_at_grown(m.forest, m1.forest, right, NodeKey::Sym(s), c as usize, i);
        earley_places::lemma_placed_grown(g, gr, m.forest, m1.forest, c, seq![o]);
        assert(earley_places::is_placed(g, gr, m1.forest, c, seq![o][0]));
        earley_places::lemma_advanced_shape(g, gr, m1, i, s1, o, right, c);
        lemma_moved_in(g, m1.forest, o, right, i);
        assert forall|k: int| 0 <= k < items.len() implies is_moved(
            g,
            n.forest,
            #[trigger] items[k],
            right,
            i,
        ) by {
            if k < front.len() {
                assert(front[k] == items[k]);
                lemma_moved_grown(g, m1.forest, n.forest, items[k], right, i);
            }
        }
    }
}

/// A complete item leads on.
#[verifier::rlimit(30)]
proof fn lemma_completed_led(
    g: earley_chart::Context,
    gr: earley_shape::Ground,
    l: reading::Reading,
    m: earley_chart::ChartModel,
    i: usize,
    stack: Seq<Item>,
    item: Item,
    id: usize,
    start: SymbolId,
)
    requires
        earley_sound::context_true(g),
        earley_shape::flags_closed(g),
        earley_fill::flags_true(g),
        gr.loose || reading::is_firm(l),
        gr.start == start,
        earley_sound::chart_derived(g, l, m, i as int),
        earley_complete::links_true(g, m, start, i as int),
        earley_complete::items_labelled(g, m.forest, m.columns[i as int], i),
        earley_places::chart_shape(g, gr, m, i as int),
        earley_places::are_placed(g, gr, m.forest, i as int, stack),
        earley_places::is_placed(g, gr, m.forest, i as int, item),
        earley_sound::item_derived(g, l, i as int, item),
        earley_chart::is_done(g, item),
        earley_shape::is_at(
            m.forest,
            ForestRef::Node(id),
            NodeKey::Sym(g.rules[item.rule as int].origin),
            item.origin,
            i,
        ),
        earley_recognizer::completed(g, m, i, stack, item, id, start).0.arena.len() <= usize::MAX,
        earley_shape::within_limits(
            earley_recognizer::completed(g, m, i, stack, item, id, start).0.forest,
        ),
    ensures
        ({
            let (n, s) = earley_recognizer::completed(g, m, i, stack, item, id, start);
            let a = g.rules[item.rule as int].origin;
            &&& item.origin < i ==> is_led(
                g,
                n,
                row(n, i as int),
                i as int,
                a,
                item.origin as int,
            )
            &&& item.origin == i ==> forall|k: int|
                0 <= k < m.columns[i as int].len() && earley_chart::expected(
                    g,
                    #[trigger] m.columns[i as int][k],
                ) == Some(a) ==> is_moved(
                    g,
                    n.forest,
                    m.columns[i as int][k],
                    ForestRef::Node(id),
                    i,
                ) && earley_complete::present(
                    n,
                    i as int,
                    earley_complete::next_item(m.columns[i as int][k]),
                )
        }),
{
    let (n, s) = earley_recognizer::completed(g, m, i, stack, item, id, start);
    let a = g.rules[item.rule as int].origin;
    let j = item.origin as int;
    earley_exact::lemma_completed_more(g, l, m, i, stack, item, id, start);
    earley_places::lemma_completed_shape(g, gr, l, m, i, stack, item, id, start);
    earley_sound::lemma_completed_arena(g, m, i, stack, item, id, start);
    let m1 = if item.origin != i {
        earley_leo::leo_created(g, m, a, item.origin, start)
    } else {
        m
    };
    if item.origin != i {
        earley_places::lemma_leo_keeps(g, m, a, item.origin, start);
        earley_sound::lemma_leo_derived(g, l, m, i as int, a, item.origin, start);
        earley_complete::lemma_leo_true(g, l, m, i as int, a, item.origin, start);
        earley_places::lemma_links_shape(
            g,
            m.arena,
            m1.arena,
            earley_shape::with_cols(gr, m.columns),
            m.forest,
        );
    }
    assert(earley_places::chart_shape(g, gr, m1, i as int));
    let shortcut = if item.origin != i {
        earley_chart::find_trans(m1.trans[j], a, 0)
    } else {
        None
    };
    match shortcut {
        Some(t) => {
            earley_leo::lemma_find_trans(m1.trans[j], a, 0);
            assert(earley_chart::row_ok(m1, j, m1.trans[j]));
            let k = choose|k: int| 0 <= k < m1.trans[j].len() && #[trigger] m1.trans[j][k] == (a, t);
            assert(m1.trans[j][k].1 < m1.arena.len());
            earley_exact::lemma_leapt_more(g, m1, i, stack, t, id);
            let top = m1.arena[t as int].top;
            let key = earley_chart::key_at(g, top.rule, top.dot as int);
            let (f, node) = earley_forest::got(m1.forest, key, top.origin, i);
            earley_forest::lemma_find_node(m1.forest.nodes, key, top.origin, i, 0);
            assert(n.forest == earley_forest::path_added(f, node, (t, ForestRef::Node(id), i)));
            assert(f.nodes[node].paths.push((t, ForestRef::Node(id), i))
                == n.forest.nodes[node].paths);
            assert(n.forest.nodes[node].paths[f.nodes[node].paths.len() as int].0 == t);
            assert(is_cut(g, n.forest, top, t, i));
            earley_exact::lemma_present_all(n, i as int, top);
            assert(is_linked(g, n, row(n, i as int), i as int, a, j));
        },
        None => {
            let column = m1.columns[j];
            assert(earley_places::are_placed(g, gr, m1.forest, j, m1.columns[j]));
            earley_places::lemma_waiting(g, gr, column, a, m1.forest, j);
            let items = earley_chart::waiting(g, column, a);
            earley_chart::lemma_waiting(g, column, a);
            assert forall|k: int| 0 <= k < items.len() implies earley_places::is_entered(
                m1.columns,
                j,
                #[trigger] items[k],
            ) by {
                assert(column.contains(items[k]));
                let q = choose|q: int| 0 <= q < column.len() && column[q] == items[k];
                assert(earley_chart::same_item(
                    m1.columns[j][q],
                    earley_shape::mark(items[k].rule, items[k].dot, items[k].origin),
                ));
            }
            assert(m1.forest == m.forest);
            lemma_all_moved(g, gr, m1, i, stack, items, ForestRef::Node(id), j, a);
            assert forall|k: int| 0 <= k < items.len() implies (#[trigger] items[k]).dot
                < g.rules[items[k].rule as int].expansion.len() <= usize::MAX by {
                assert(earley_places::is_placed(g, gr, m1.forest, j, items[k]));
                assert(earley_chart::expected(g, items[k]) == Some(a));
                assert(g.rules[items[k].rule as int].origin.ix() >= g.nt);
            }
            earley_complete::lemma_all_advanced_more(g, m1, i, stack, items, ForestRef::Node(id));
            assert forall|k: int|
                0 <= k < column.len() && earley_chart::expected(g, #[trigger] m1.columns[j][k])
                    == Some(a) implies is_moved(
                g,
                n.forest,
                column[k],
                ForestRef::Node(id),
                i,
            ) && earley_complete::present(
                n,
                i as int,
                earley_complete::next_item(column[k]),
            ) by {
                assert(items.contains(column[k]));
                let q = choose|q: int| 0 <= q < items.len() && items[q] == column[k];
                assert(is_moved(g, n.forest, items[q], ForestRef::Node(id), i));
            }
            if item.origin < i {
                earley_shape::lemma_at_grown(
                    m.forest,
                    n.forest,
                    ForestRef::Node(id),
                    NodeKey::Sym(a),
                    item.origin,
                    i,
                );
                assert(n.columns[j] == m1.columns[j]);
                assert forall|k: int|
                    0 <= k < n.columns[j].len() && earley_chart::expected(
                        g,
                        #[trigger] n.columns[j][k],
                    ) == Some(a) implies is_moved(
                    g,
                    n.forest,
                    n.columns[j][k],
                    ForestRef::Node(id),
                    i,
                ) && earley_chart::has_item(
                    row(n, i as int),
                    earley_complete::next_item(n.columns[j][k]),
                ) by {
                    assert(m1.columns[j][k] == n.columns[j][k]);
                    earley_exact::lemma_present_all(
                        n,
                        i as int,
                        earley_complete::next_item(n.columns[j][k]),
                    );
                }
                assert(are_moved(g, n, row(n, i as int), i as int, a, j, id));
            }
        },
    }
}

/// What had led on still has, and what is new is yet to be processed.
proof fn lemma_led_after(
    g: earley_chart::Context,
    w: earley_recognizer::Work,
    v: earley_recognizer::Work,
    i: usize,
)
    requires
        work_led(g, w, i),
        w.stack.len() > 0,
        w.chart.trans.len() == w.chart.columns.len(),
        earley_complete::more_work(w.chart, w.stack.drop_last(), v.chart, v.stack, i as int),
        earley_shape::grown(w.chart.forest, v.chart.forest),
        item_led(g, v, i, w.stack.last()),
        item_passed(g, v, i, w.stack.last()),
        forall|k: int|
            0 <= k < w.chart.columns[i as int].len() ==> {
                let x = #[trigger] w.chart.columns[i as int][k];
                item_passed(g, w, i, x) ==> item_passed(g, v, i, x)
            },
    ensures
        work_led(g, v, i),
{
    let a = w.chart.columns[i as int];
    let b = v.chart.columns[i as int];
    let rest = w.stack.drop_last();
    assert(b.len() - a.len() == v.stack.len() - rest.len()) by {
        assert(b.skip(a.len() as int).len() == v.stack.skip(rest.len() as int).len());
    }
    assert forall|k: int| 0 <= k < b.len() implies v.stack.contains(#[trigger] b[k]) || item_led(
        g,
        v,
        i,
        b[k],
    ) && item_passed(g, v, i, b[k]) by {
        if k < a.len() {
            earley_complete::lemma_continues_index(a, b, k);
            if a[k] == w.stack.last() {
            } else if w.stack.contains(a[k]) {
                let q = choose|q: int| 0 <= q < w.stack.len() && w.stack[q] == a[k];
                assert(q < rest.len());
                assert(rest[q] == w.stack[q]);
                earley_complete::lemma_continues_index(rest, v.stack, q);
                assert(v.stack[q] == b[k]);
            } else {
                lemma_item_led_stays(g, w, v, i, a[k]);
            }
        } else {
            let q = k - a.len();
            assert(b.skip(a.len() as int)[q] == v.stack.skip(rest.len() as int)[q]);
            assert(v.stack[rest.len() + q] == b[k]);
        }
    }
}

proof fn lemma_passed_stays(
    g: earley_chart::Context,
    w: earley_recognizer::Work,
    v: earley_recognizer::Work,
    i: usize,
    x: Item,
)
    requires
        item_passed(g, w, i, x),
        earley_complete::more_in(w.chart, v.chart, i as int),
        earley_shape::grown(w.chart.forest, v.chart.forest),
        earley_chart::expected(g, x) matches Some(s) ==> v.held[s.ix() as int]
            == w.held[s.ix() as int],
    ensures
        item_passed(g, v, i, x),
{
    if let Some(s) = earley_chart::expected(g, x) {
        if s.ix() >= g.nt {
            if let Some(h) = w.held[s.ix() as int] {
                earley_complete::lemma_present_stays(
                    w.chart,
                    v.chart,
                    i as int,
                    earley_complete::next_item(x),
                );
                lemma_moved_grown(g, w.chart.forest, v.chart.forest, x, ForestRef::Node(h), i);
            }
        }
    }
}

/// Processing an item leads on.
#[verifier::rlimit(40)]
proof fn lemma_step_led(
    g: earley_chart::Context,
    gr: earley_shape::Ground,
    l: reading::Reading,
    w: earley_recognizer::Work,
    i: usize,
    start: SymbolId,
)
    requires
        earley_sound::context_true(g),
        earley_shape::flags_closed(g),
        earley_fill::flags_true(g),
        gr.loose || reading::is_firm(l),
        gr.start == start,
        earley_sound::work_derived(g, l, w, i as int),
        earley_exact::work_full(g, w, i, start),
        earley_places::work_shape(g, gr, w, i as int),
        work_led(g, w, i),
        w.stack.len() > 0,
        earley_recognizer::work_step(g, w, i, start).chart.arena.len() <= usize::MAX,
        earley_shape::within_limits(earley_recognizer::work_step(g, w, i, start).chart.forest),
    ensures
        work_led(g, earley_recognizer::work_step(g, w, i, start), i),
{
    let item = w.stack.last();
    let rest = w.stack.drop_last();
    let v = earley_recognizer::work_step(g, w, i, start);
    let column = w.chart.columns[i as int];
    earley_places::lemma_step_shape(g, gr, l, w, i, start);
    earley_exact::lemma_step_more(g, l, w, i, start);
    assert(column.contains(w.stack[w.stack.len() - 1]));
    let at = choose|q: int| 0 <= q < column.len() && column[q] == item;
    assert(earley_sound::items_derived(g, l, i as int, column));
    assert(earley_sound::item_derived(g, l, i as int, column[at]));
    assert(earley_places::are_placed(g, gr, w.chart.forest, i as int, column));
    assert(earley_places::is_placed(g, gr, w.chart.forest, i as int, column[at]));
    match earley_chart::expected(g, item) {
        None => {
            let a = g.rules[item.rule as int].origin;
            let (m1, id) = earley_recognizer::node_for(g, w.chart, i, item);
            earley_places::lemma_completed_sizes(g, m1, i, rest, item, id, start);
            earley_shape::lemma_sizes_limits(m1.forest, v.chart.forest);
            earley_places::lemma_node_for_shape(g, gr, w.chart, i, item);
            earley_sound::lemma_node_for_derived(g, l, w.chart, i, item);
            earley_exact::lemma_node_for_more(g, w.chart, i, rest, item);
            assert forall|k: int| 0 <= k < rest.len() implies earley_places::is_placed(
                g,
                gr,
                w.chart.forest,
                i as int,
                #[trigger] rest[k],
            ) by {
                assert(earley_places::is_placed(g, gr, w.chart.forest, i as int, w.stack[k]));
            }
            earley_places::lemma_placed_grown(g, gr, w.chart.forest, m1.forest, i as int, rest);
            earley_places::lemma_placed_grown(
                g,
                gr,
                w.chart.forest,
                m1.forest,
                i as int,
                seq![item],
            );
            assert(earley_places::is_placed(g, gr, m1.forest, i as int, seq![item][0]));
            earley_exact::lemma_links_stay(g, w.chart, m1, start, i as int);
            lemma_completed_led(g, gr, l, m1, i, rest, item, id, start);
            earley_places::lemma_completed_shape(g, gr, l, m1, i, rest, item, id, start);
            if item.dot == 0 && item.origin == i {
                let (f, at_node) = earley_forest::got(w.chart.forest, NodeKey::Sym(a), i, i);
                earley_forest::lemma_find_node(w.chart.forest.nodes, NodeKey::Sym(a), i, i, 0);
                assert(earley_shape::eps_kept(w.chart.forest));
                assert(earley_shape::eps_kept(f));
                lemma_family_in(
                    f,
                    at_node,
                    Packed {
                        rule: item.rule,
                        left: ForestRef::Nothing,
                        right: ForestRef::Nothing,
                        right_pos: 0,
                    },
                    g.rules[item.rule as int].order,
                );
                assert(earley_forest::labelled(m1.forest.nodes[at_node], NodeKey::Sym(a), i, i));
                assert(has_empty(m1.forest, a, i, i));
                lemma_empty_grown(m1.forest, v.chart.forest, a, i, i);
            }
            assert(item_led(g, v, i, item));
            assert(a.ix() < g.n);
            assert forall|k: int| 0 <= k < column.len() implies ({
                let x = #[trigger] column[k];
                item_passed(g, w, i, x) ==> item_passed(g, v, i, x)
            }) by {
                let x = column[k];
                if item_passed(g, w, i, x) {
                    if let Some(s) = earley_chart::expected(g, x) {
                        assert(earley_sound::item_derived(g, l, i as int, x));
                        assert(g.rules[x.rule as int].expansion[x.dot as int].ix() < g.n);
                        if s == a && item.origin == i {
                            assert(m1.columns[i as int][k] == x);
                        } else {
                            if s.ix() == a.ix() {
                                assert(s == a);
                            }
                            lemma_passed_stays(g, w, v, i, x);
                        }
                    }
                }
            }
            lemma_led_after(g, w, v, i);
        },
        Some(s) => {
            assert(!earley_chart::wants_terminal(g, column[at]));
            assert(s.ix() < g.n) by {
                assert(g.rules[item.rule as int].expansion[item.dot as int].ix() < g.n);
            }
            let (m1, s1) = earley_chart::predicted(g, w.chart, i, rest, s, g.rules.len());
            assert forall|k: int| 0 <= k < rest.len() implies earley_places::is_placed(
                g,
                gr,
                w.chart.forest,
                i as int,
                #[trigger] rest[k],
            ) by {
                assert(earley_places::is_placed(g, gr, w.chart.forest, i as int, w.stack[k]));
            }
            earley_places::lemma_predicted_shape(g, gr, w.chart, i, rest, s, g.rules.len());
            earley_complete::lemma_predicted_more(g, w.chart, i, rest, s, g.rules.len());
            if let Some(h) = w.held[s.ix() as int] {
                assert(g.rules[item.rule as int].origin.ix() >= g.nt);
                earley_complete::lemma_advanced_more(g, m1, i, s1, item, ForestRef::Node(h));
                earley_places::lemma_advanced_forest(g, m1, i, s1, item, ForestRef::Node(h));
                assert(earley_shape::eps_kept(m1.forest));
                lemma_moved_in(g, m1.forest, item, ForestRef::Node(h), i);
            }
            assert(item_passed(g, v, i, item));
            assert forall|k: int| 0 <= k < column.len() implies ({
                let x = #[trigger] column[k];
                item_passed(g, w, i, x) ==> item_passed(g, v, i, x)
            }) by {
                let x = column[k];
                if item_passed(g, w, i, x) {
                    lemma_passed_stays(g, w, v, i, x);
                }
            }
            lemma_led_after(g, w, v, i);
        },
    }
}

proof fn lemma_run_led(
    g: earley_chart::Context,
    gr: earley_shape::Ground,
    l: reading::Reading,
    w: earley_recognizer::Work,
    i: usize,
    start: SymbolId,
    k: nat,
)
    requires
        earley_sound::context_true(g),
        earley_shape::flags_closed(g),
        earley_fill::flags_true(g),
        gr.loose || reading::is_firm(l),
        gr.start == start,
        earley_sound::work_derived(g, l, w, i as int),
        earley_exact::work_full(g, w, i, start),
        earley_places::work_shape(g, gr, w, i as int),
        work_led(g, w, i),
        forall|j: nat|
            j < k ==> (#[trigger] earley_recognizer::work_run(g, w, i, start, j)).stack.len() > 0,
        earley_recognizer::work_run(g, w, i, start, k).chart.arena.len() <= usize::MAX,
        earley_shape::within_limits(
            earley_recognizer::work_run(g, w, i, start, k).chart.forest,
        ),
    ensures
        work_led(g, earley_recognizer::work_run(g, w, i, start, k), i),
        earley_shape::grown(
            w.chart.forest,
            earley_recognizer::work_run(g, w, i, start, k).chart.forest,
        ),
    decreases k,
{
    if k == 0 {
        earley_shape::lemma_grown_self(w.chart.forest);
    } else {
        let j = (k - 1) as nat;
        let u = earley_recognizer::work_run(g, w, i, start, j);
        let v = earley_recognizer::work_run(g, w, i, start, k);
        earley_exact::lemma_run_links(g, w, i, start, j, k);
        earley_places::lemma_run_sizes(g, w, i, start, j, k);
        earley_shape::lemma_sizes_limits(u.chart.forest, v.chart.forest);
        lemma_run_led(g, gr, l, w, i, start, j);
        earley_places::lemma_run_shape(g, gr, l, w, i, start, j);
        earley_exact::lemma_run_full(g, l, w, i, start, j);
        assert(u.stack.len() > 0);
        lemma_step_led(g, gr, l, u, i, start);
        earley_places::lemma_step_shape(g, gr, l, u, i, start);
        earley_shape::lemma_grown_trans(w.chart.forest, u.chart.forest, v.chart.forest);
    }
}

/// Closing a column leads on from each of its complete items.
pub proof fn lemma_closed_at_led(
    g: earley_chart::Context,
    gr: earley_shape::Ground,
    l: reading::Reading,
    m: earley_chart::ChartModel,
    i: usize,
    start: SymbolId,
    n: earley_chart::ChartModel,
)
    requires
        earley_sound::context_true(g),
        earley_shape::flags_closed(g),
        earley_fill::flags_true(g),
        gr.loose || reading::is_firm(l),
        gr.start == start,
        earley_exact::can_close(g, l, m, i, start),
        earley_places::chart_shape(g, gr, m, i as int),
        earley_recognizer::closed_at(g, m, i, start, n),
        earley_shape::within_limits(n.forest),
    ensures
        column_led(g, n, row(n, i as int), i as int),
        earley_shape::grown(m.forest, n.forest),
{
    let w = earley_recognizer::begun(g, m, i as int);
    let (k, v) = choose|k: nat, v: earley_recognizer::Work|
        #[trigger] earley_recognizer::work_reaches(g, w, i, start, v, k) && v.stack.len() == 0
            && v.chart == n && n.arena.len() <= usize::MAX;
    earley_exact::lemma_begun_full(g, l, m, i, start);
    assert(earley_places::are_placed(g, gr, m.forest, i as int, m.columns[i as int]));
    assert(earley_places::work_shape(g, gr, w, i as int));
    assert(work_led(g, w, i)) by {
        assert forall|q: int| 0 <= q < m.columns[i as int].len() implies w.stack.contains(
            #[trigger] m.columns[i as int][q],
        ) by {
            assert(w.stack[q] == m.columns[i as int][q]);
        }
    }
    lemma_run_led(g, gr, l, w, i, start, k);
    earley_places::lemma_run_shape(g, gr, l, w, i, start, k);
    earley_exact::lemma_run_full(g, l, w, i, start, k);
    let column = n.columns[i as int];
    let h = row(n, i as int);
    assert forall|q: int| 0 <= q < column.len() implies done_led(
        g,
        n,
        h,
        i as int,
        #[trigger] n.columns[i as int][q],
    ) by {
        let x = column[q];
        assert(!v.stack.contains(column[q]));
        assert(item_led(g, v, i, column[q]));
        assert(earley_exact::handled(g, v, i, column[q]));
        assert(earley_sound::items_derived(g, l, i as int, column));
        assert(earley_sound::item_derived(g, l, i as int, column[q]));
        let a = g.rules[x.rule as int].origin;
        if earley_chart::is_done(g, x) && x.origin == i {
            assert(a.ix() < g.n);
            assert(a.ix() >= g.nt);
            let id = v.held[a.ix() as int]->0;
            assert(earley_shape::is_at(n.forest, ForestRef::Node(id), NodeKey::Sym(a), i, i));
            assert forall|y: int|
                0 <= y < column.len() && earley_chart::expected(
                    g,
                    #[trigger] n.columns[i as int][y],
                ) == Some(a) implies is_moved(
                g,
                n.forest,
                n.columns[i as int][y],
                ForestRef::Node(id),
                i,
            ) && earley_chart::has_item(
                h,
                earley_complete::next_item(n.columns[i as int][y]),
            ) by {
                assert(!v.stack.contains(column[y]));
                assert(item_passed(g, v, i, column[y]));
                earley_exact::lemma_present_all(
                    n,
                    i as int,
                    earley_complete::next_item(n.columns[i as int][y]),
                );
            }
            assert(are_moved(g, n, h, i as int, a, i as int, id));
        }
    }
}

// ---------------------------------------------------------------------------
// Scanning

/// Whether each of some items that waits for the terminal `t` has the family by
/// which it is moved over it.
pub open spec fn all_scanned(
    g: earley_chart::Context,
    f: earley_forest::ForestModel,
    items: Seq<Item>,
    t: SymbolId,
    right: ForestRef,
    end: usize,
) -> bool {
    forall|k: int|
        0 <= k < items.len() && earley_chart::expected(g, #[trigger] items[k]) == Some(t)
            && t.ix() < g.nt ==> is_moved(g, f, items[k], right, end)
}

/// What is scanned stays so as the forest grows.
pub proof fn lemma_scanned_grown(
    g: earley_chart::Context,
    f: earley_forest::ForestModel,
    h: earley_forest::ForestModel,
    items: Seq<Item>,
    t: SymbolId,
    right: ForestRef,
    end: usize,
)
    requires
        all_scanned(g, f, items, t, right, end),
        earley_forest::extends(f, h),
        earley_shape::pairs_kept(f, h),
    ensures
        all_scanned(g, h, items, t, right, end),
{
    assert forall|k: int|
        0 <= k < items.len() && earley_chart::expected(g, #[trigger] items[k]) == Some(t)
            && t.ix() < g.nt implies is_moved(g, h, items[k], right, end) by {
        lemma_moved_grown(g, f, h, items[k], right, end);
    }
}

/// Scanning enters the family of each item that waits for the token.
proof fn lemma_scanned_led(
    g: earley_chart::Context,
    arena: Seq<Trans>,
    gr: earley_shape::Ground,
    f: earley_forest::ForestModel,
    items: Seq<Item>,
    t: SymbolId,
    right: ForestRef,
    i: int,
    k: nat,
)
    requires
        earley_chart::context_ok(g),
        earley_shape::flags_closed(g),
        earley_places::is_sound(g, arena, gr, f),
        !gr.loose,
        earley_places::are_placed(g, gr, f, i, items),
        forall|q: int| 0 <= q < items.len() ==> earley_chart::wants_terminal(g, #[trigger] items[q]),
        right == ForestRef::Tok(i as usize),
        i < f.tokens.len(),
        f.tokens[i].type_id == t,
        0 <= i < usize::MAX,
        k <= items.len(),
        earley_shape::within_limits(
            earley_recognizer::scanned(g, f, items, t, right, (i + 1) as usize, k).forest,
        ),
    ensures
        all_scanned(
            g,
            earley_recognizer::scanned(g, f, items, t, right, (i + 1) as usize, k).forest,
            items.take(k as int),
            t,
            right,
            (i + 1) as usize,
        ),
    decreases k,
{
    let end = (i + 1) as usize;
    if k > 0 {
        let p = earley_recognizer::scanned(g, f, items, t, right, end, (k - 1) as nat);
        let s = earley_recognizer::scanned(g, f, items, t, right, end, k);
        let o = items[k - 1];
        let (f1, item) = earley_chart::moved(g, p.forest, o, right, end);
        earley_places::lemma_moved_sizes(g, p.forest, o, right, end);
        earley_shape::lemma_sizes_limits(p.forest, s.forest);
        lemma_scanned_led(g, arena, gr, f, items, t, right, i, (k - 1) as nat);
        earley_places::lemma_scanned_shape(g, arena, gr, f, items, t, right, i, (k - 1) as nat);
        if earley_chart::expected(g, o) == Some(t) {
            assert(earley_places::is_placed(g, gr, f, i, items[k - 1]));
            assert(earley_chart::wants_terminal(g, items[k - 1]));
            earley_places::lemma_placed_grown(g, gr, f, p.forest, i, seq![o]);
            assert(earley_places::is_placed(g, gr, p.forest, i, seq![o][0]));
            earley_places::lemma_moved_shape(g, arena, gr, p.forest, o, right, i, end);
            lemma_moved_in(g, p.forest, o, right, end);
        } else {
            earley_shape::lemma_grown_self(p.forest);
        }
        assert forall|q: int|
            0 <= q < k && earley_chart::expected(g, #[trigger] items.take(k as int)[q])
                == Some(t) implies is_moved(g, s.forest, items.take(k as int)[q], right, end) by {
            if q < k - 1 {
                assert(items.take((k - 1) as int)[q] == items[q]);
                lemma_moved_grown(g, p.forest, s.forest, items[q], right, end);
            }
        }
    }
}

/// Whether an item of column `c` refers to the node of what it has passed.
pub open spec fn is_seated(
    g: earley_chart::Context,
    f: earley_forest::ForestModel,
    c: int,
    x: Item,
) -> bool {
    if x.dot == 0 {
        x.node is Nothing && x.origin == c
    } else {
        earley_shape::is_at(
            f,
            x.node,
            earley_chart::key_at(g, x.rule, x.dot as int),
            x.origin,
            c as usize,
        )
    }
}

/// Whether each of some items of column `c` refers to the node of what it has passed.
pub open spec fn all_seated(
    g: earley_chart::Context,
    f: earley_forest::ForestModel,
    items: Seq<Item>,
    c: int,
) -> bool {
    forall|k: int| 0 <= k < items.len() ==> is_seated(g, f, c, #[trigger] items[k])
}

proof fn lemma_seated_grown(
    g: earley_chart::Context,
    f: earley_forest::ForestModel,
    h: earley_forest::ForestModel,
    items: Seq<Item>,
    c: int,
)
    requires
        earley_forest::extends(f, h),
        all_seated(g, f, items, c),
    ensures
        all_seated(g, h, items, c),
{
    assert forall|k: int| 0 <= k < items.len() implies is_seated(g, h, c, #[trigger] items[k]) by {
        let x = items[k];
        assert(is_seated(g, f, c, items[k]));
        if x.dot > 0 {
            earley_shape::lemma_at_grown(
                f,
                h,
                x.node,
                earley_chart::key_at(g, x.rule, x.dot as int),
                x.origin,
                c as usize,
            );
        }
    }
}

proof fn lemma_row_seated(
    g: earley_chart::Context,
    gr: earley_shape::Ground,
    m: earley_chart::ChartModel,
    i: int,
)
    requires
        earley_places::chart_shape(g, gr, m, i),
        !gr.loose,
    ensures
        all_seated(g, m.forest, row(m, i), i),
{
    let items = row(m, i);
    assert(earley_places::are_placed(g, gr, m.forest, i, m.columns[i]));
    assert forall|k: int| 0 <= k < items.len() implies is_seated(
        g,
        m.forest,
        i,
        #[trigger] items[k],
    ) by {
        if k < m.columns[i].len() {
            assert(earley_places::is_placed(g, gr, m.forest, i, m.columns[i][k]));
        } else {
            assert(earley_places::is_placed(
                g,
                gr,
                m.forest,
                i,
                m.scan[k - m.columns[i].len()],
            ));
        }
    }
}

/// Whether every complete item of the chart up to column `i` has led on, and every
/// item that waited for a token has the family by which it is moved over it. The
/// items of the columns are `hist`, and refer to the nodes of what they have passed.
pub open spec fn chart_led(
    g: earley_chart::Context,
    m: earley_chart::ChartModel,
    hist: Seq<Seq<Item>>,
    tokens: Seq<tree::TokenModel>,
    i: int,
) -> bool {
    &&& forall|c: int| 0 <= c <= i ==> column_led(g, m, #[trigger] hist[c], c)
    &&& forall|c: int| 0 <= c <= i ==> all_seated(g, m.forest, #[trigger] hist[c], c)
    &&& forall|c: int|
        0 <= c < i ==> all_scanned(
            g,
            m.forest,
            #[trigger] hist[c],
            tokens[c].type_id,
            ForestRef::Tok(c as usize),
            (c + 1) as usize,
        )
}

/// The items of the next column have led on.
#[verifier::rlimit(30)]
proof fn lemma_next_led(
    g: earley_chart::Context,
    start: SymbolId,
    l: reading::Reading,
    tokens: Seq<tree::TokenModel>,
    i: nat,
    p: earley_chart::ChartModel,
    before: Seq<Seq<Item>>,
    m: earley_chart::ChartModel,
)
    requires
        earley_sound::context_true(g),
        earley_shape::flags_closed(g),
        earley_fill::flags_true(g),
        reading::is_firm(l),
        0 < i <= l.size <= usize::MAX,
        i <= tokens.len(),
        reading::tok_at(l, i - 1, i as int, tokens[i - 1].type_id),
        earley_exact::full_to(g, start, l, p, before, i - 1),
        chart_led(g, p, before, tokens, i - 1),
        earley_sprung::chart_sprung(g, p, before, i - 1),
        earley_recognizer::follows(g, start, tokens, i as int, p, m),
        earley_places::chart_shape(g, earley_shape::firm(p.columns, start), p, i - 1),
        p.forest.tokens == tokens.take(i - 1),
        earley_shape::within_limits(m.forest),
    ensures
        chart_led(g, m, before.push(row(m, i as int)), tokens, i as int),
        earley_sprung::chart_sprung(g, m, before.push(row(m, i as int)), i as int),
{
    let j = (i - 1) as nat;
    let t = tokens[j as int];
    let gr = earley_shape::firm(m.columns, start);
    let at = earley_shape::with_cols(gr, p.columns);
    let f = earley_forest::token_added(p.forest, t);
    let right = ForestRef::Tok(p.forest.tokens.len() as usize);
    let s = earley_recognizer::scanned(g, f, p.scan, t.type_id, right, i as usize, p.scan.len());
    let n = earley_recognizer::next_chart(p, s);
    assert(earley_recognizer::scan_step(g, p, t) == Some(n));
    earley_places::lemma_closed_at_sizes(g, n, i as usize, start, m);
    earley_shape::lemma_sizes_limits(n.forest, m.forest);
    earley_places::lemma_scanned_sizes(g, f, p.scan, t.type_id, right, i as usize, p.scan.len());
    earley_shape::lemma_sizes_limits(f, n.forest);
    earley_exact::lemma_scan_full(g, l, start, j as int, p, before, t);
    assert(at == earley_shape::firm(p.columns, start));
    earley_places::lemma_token_shape(g, p.arena, at, p.forest, t);
    earley_places::lemma_placed_grown(g, gr, p.forest, f, j as int, p.scan);
    earley_places::lemma_scanned_shape(
        g,
        p.arena,
        at,
        f,
        p.scan,
        t.type_id,
        right,
        j as int,
        p.scan.len(),
    );
    lemma_scanned_led(g, p.arena, at, f, p.scan, t.type_id, right, j as int, p.scan.len());
    assert(p.scan.take(p.scan.len() as int) =~= p.scan);
    earley_shape::lemma_grown_trans(p.forest, f, s.forest);
    assert forall|c: int| 0 <= c < n.columns.len() implies earley_places::are_placed(
        g,
        gr,
        n.forest,
        c,
        #[trigger] n.columns[c],
    ) by {
        if c < p.columns.len() {
            assert(n.columns[c] == p.columns[c]);
            assert(earley_places::are_placed(g, at, p.forest, c, p.columns[c]));
            earley_places::lemma_placed_grown(g, gr, p.forest, s.forest, c, p.columns[c]);
        }
    }
    earley_shape::lemma_cols_shape(
        g,
        p.arena,
        at,
        earley_shape::with_cols(gr, n.columns),
        s.forest,
    );
    lemma_closed_at_led(g, gr, l, n, i as usize, start, m);
    earley_exact::lemma_closed_at_full(g, l, n, i as usize, start, m);
    earley_shape::lemma_grown_trans(p.forest, n.forest, m.forest);
    let hist = before.push(row(m, i as int));
    assert forall|c: int| 0 <= c <= i implies column_led(g, m, #[trigger] hist[c], c) by {
        if c < i {
            assert(hist[c] == before[c]);
            assert(column_led(g, p, before[c], c));
            assert forall|q: int| 0 <= q < p.trans.len() implies earley_complete::continues(
                p.trans[q],
                #[trigger] m.trans[q],
            ) by {
                assert(n.trans[q] == p.trans[q]);
                assert(earley_complete::continues(n.trans[q], m.trans[q]));
            }
            assert forall|q: int| 0 <= q < p.columns.len() implies #[trigger] m.columns[q]
                == p.columns[q] by {
                assert(n.columns[q] == p.columns[q]);
                assert(m.columns[q] == n.columns[q]);
            }
            assert(earley_places::are_placed(g, at, p.forest, c, p.columns[c]));
            lemma_column_led_stays(g, p, m, before[c], c);
        }
    }
    earley_places::lemma_closed_at_shape(g, gr, l, n, i as usize, start, m);
    lemma_row_seated(g, gr, m, i as int);
    assert forall|q: int| 0 <= q < p.scan.len() implies (#[trigger] p.scan[q]).origin < i by {
        assert(earley_places::is_placed(g, at, p.forest, j as int, p.scan[q]));
    }
    earley_sprung::lemma_next_sprung(g, p, before, i as usize, t, n);
    earley_sprung::lemma_closed_at_sprung(g, gr, l, n, before, i as usize, start, m);
    assert forall|c: int| 0 <= c <= i implies all_seated(g, m.forest, #[trigger] hist[c], c) by {
        if c < i {
            assert(hist[c] == before[c]);
            assert(all_seated(g, p.forest, before[c], c));
            lemma_seated_grown(g, p.forest, m.forest, before[c], c);
        }
    }
    assert forall|c: int| 0 <= c < i implies all_scanned(
        g,
        m.forest,
        #[trigger] hist[c],
        tokens[c].type_id,
        ForestRef::Tok(c as usize),
        (c + 1) as usize,
    ) by {
        assert(hist[c] == before[c]);
        if c < j {
            assert(all_scanned(
                g,
                p.forest,
                before[c],
                tokens[c].type_id,
                ForestRef::Tok(c as usize),
                (c + 1) as usize,
            ));
            lemma_scanned_grown(
                g,
                p.forest,
                m.forest,
                before[c],
                tokens[c].type_id,
                ForestRef::Tok(c as usize),
                (c + 1) as usize,
            );
        } else {
            lemma_scanned_grown(g, n.forest, m.forest, p.scan, t.type_id, right, i as usize);
            assert forall|k: int|
                0 <= k < before[c].len() && earley_chart::expected(g, #[trigger] before[c][k])
                    == Some(t.type_id) && t.type_id.ix() < g.nt implies is_moved(
                g,
                m.forest,
                before[c][k],
                right,
                i as usize,
            ) by {
                let x = before[c][k];
                if k < p.columns[c].len() {
                    assert(x == p.columns[c][k]);
                    assert(!earley_chart::wants_terminal(g, p.columns[c][k]));
                } else {
                    assert(p.scan[k - p.columns[c].len()] == x);
                }
            }
        }
    }
}

/// The chart up to a column is complete, and its items have led on.
pub proof fn lemma_charted_led(
    g: earley_chart::Context,
    start: SymbolId,
    tokens: Seq<tree::TokenModel>,
    types: Seq<SymbolId>,
    i: nat,
    m: earley_chart::ChartModel,
) -> (hist: Seq<Seq<Item>>)
    requires
        earley_sound::context_true(g),
        earley_shape::flags_closed(g),
        earley_fill::flags_true(g),
        earley_recognizer::charted(g, start, tokens, i, m),
        i <= tokens.len(),
        i <= types.len() <= usize::MAX,
        forall|k: int| 0 <= k < i ==> tokens[k].type_id == #[trigger] types[k],
        earley_shape::within_limits(m.forest),
    ensures
        earley_exact::full_to(g, start, reading::of_types(types, start), m, hist, i as int),
        chart_led(g, m, hist, tokens, i as int),
        earley_sprung::chart_sprung(g, m, hist, i as int),
    decreases i,
{
    let l = reading::of_types(types, start);
    let gr = earley_shape::firm(m.columns, start);
    assert(reading::is_firm(l));
    if i == 0 {
        let hist = earley_exact::lemma_charted_full(g, start, tokens, types, i, m);
        let b = earley_recognizer::blank_chart();
        let m0 = earley_recognizer::started(g, start);
        earley_places::lemma_closed_at_sizes(g, m0, 0, start, m);
        earley_exact::lemma_started_full(g, l, start);
        assert(earley_places::chart_shape(g, gr, b, 0));
        earley_places::lemma_predicted_shape(g, gr, b, 0, Seq::empty(), start, g.rules.len());
        lemma_closed_at_led(g, gr, l, m0, 0, start, m);
        earley_places::lemma_closed_at_shape(g, gr, l, m0, 0, start, m);
        lemma_row_seated(g, gr, m, 0);
        earley_sprung::lemma_started_sprung(g, start);
        earley_sprung::lemma_closed_at_sprung(g, gr, l, m0, Seq::empty(), 0, start, m);
        assert(Seq::<Seq<Item>>::empty().push(row(m, 0)) =~= hist);
        hist
    } else {
        let j = (i - 1) as nat;
        let p = choose|p: earley_chart::ChartModel|
            earley_recognizer::charted(g, start, tokens, j, p) && #[trigger] earley_recognizer::follows(
                g,
                start,
                tokens,
                i as int,
                p,
                m,
            );
        let known = earley_exact::lemma_charted_full(g, start, tokens, types, j, p);
        let t = tokens[j as int];
        assert(t.type_id == types[j as int]);
        let f = earley_forest::token_added(p.forest, t);
        let right = ForestRef::Tok(p.forest.tokens.len() as usize);
        let s = earley_recognizer::scanned(
            g,
            f,
            p.scan,
            t.type_id,
            right,
            i as usize,
            p.scan.len(),
        );
        let n = earley_recognizer::next_chart(p, s);
        assert(earley_recognizer::scan_step(g, p, t) == Some(n));
        earley_places::lemma_closed_at_sizes(g, n, i as usize, start, m);
        earley_shape::lemma_sizes_limits(n.forest, m.forest);
        earley_places::lemma_scanned_sizes(
            g,
            f,
            p.scan,
            t.type_id,
            right,
            i as usize,
            p.scan.len(),
        );
        earley_shape::lemma_sizes_limits(f, n.forest);
        assert(earley_shape::within_limits(p.forest));
        let before = lemma_charted_led(g, start, tokens, types, j, p);
        earley_exact::lemma_next_full(g, start, tokens, types, i, p, before, m);
        earley_places::lemma_charted_shape(g, start, tokens, types, j, p);
        lemma_next_led(g, start, l, tokens, i, p, before, m);
        before.push(row(m, i as int))
    }
}

} // verus!
