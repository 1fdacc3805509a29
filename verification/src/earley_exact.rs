//! The Earley chart is exact: it accepts the tokens that the grammar derives,
//! and no others.

use vstd::prelude::*;
use crate::analysis;
use crate::earley_chart;
use crate::earley_complete;
use crate::earley_dynamic;
use crate::earley_forest;
use crate::earley_forest::{ForestRef, Item, NodeKey};
use crate::earley_leo;
use crate::earley_recognizer;
use crate::earley_sound;
use crate::reading;
use crate::symbols::SymbolId;
use crate::tree;

verus! {

// ---------------------------------------------------------------------------
// Columns

/// Whether a symbol begun at column `j` and complete at `i` has led on: by a
/// link to its top item, or by moving each item that waits for it.
pub open spec fn settled_at(
    g: earley_chart::Context,
    m: earley_chart::ChartModel,
    i: int,
    a: SymbolId,
    j: int,
) -> bool {
    ||| match earley_chart::find_trans(m.trans[j], a, 0) {
        Some(t) => earley_complete::present(m, i, m.arena[t as int].top),
        None => false,
    }
    ||| forall|k: int|
        0 <= k < m.columns[j].len() && earley_chart::expected(g, #[trigger] m.columns[j][k])
            == Some(a) ==> earley_complete::present(
            m,
            i,
            earley_complete::next_item(m.columns[j][k]),
        )
}

/// Whether an item of column `i` has led to all that it leads to.
pub open spec fn handled(
    g: earley_chart::Context,
    w: earley_recognizer::Work,
    i: usize,
    x: Item,
) -> bool {
    let a = g.rules[x.rule as int].origin;
    match earley_chart::expected(g, x) {
        None => {
            &&& earley_complete::has_label(w.chart.forest, NodeKey::Sym(a), x.origin, i)
            &&& if x.origin == i {
                w.held[a.ix() as int] is Some
            } else {
                settled_at(g, w.chart, i as int, a, x.origin as int)
            }
        },
        Some(s) => s.ix() >= g.nt ==> forall|r: int|
            0 <= r < g.rules.len() && (#[trigger] g.rules[r]).origin == s
                ==> earley_complete::present(w.chart, i as int, earley_chart::fresh(r, i)),
    }
}

/// Whether an item of column `i` has been moved over a symbol that derives
/// nothing here, if that is known.
pub open spec fn passed(
    g: earley_chart::Context,
    w: earley_recognizer::Work,
    i: usize,
    x: Item,
) -> bool {
    match earley_chart::expected(g, x) {
        None => true,
        Some(s) => s.ix() >= g.nt && w.held[s.ix() as int] is Some
            ==> earley_complete::present(w.chart, i as int, earley_complete::next_item(x)),
    }
}

/// Whether no item of column `i` waits for a terminal, and those set apart do.
pub open spec fn no_terminals(
    g: earley_chart::Context,
    m: earley_chart::ChartModel,
    i: int,
) -> bool {
    &&& forall|k: int|
        0 <= k < m.columns[i].len() ==> !earley_chart::wants_terminal(g, #[trigger] m.columns[i][k])
    &&& forall|k: int| 0 <= k < m.scan.len() ==> earley_chart::wants_terminal(g, #[trigger] m.scan[k])
}

/// Whether each item of column `i` is yet to be processed, or has led to all
/// that it leads to.
pub open spec fn work_full(
    g: earley_chart::Context,
    w: earley_recognizer::Work,
    i: usize,
    start: SymbolId,
) -> bool {
    let column = w.chart.columns[i as int];
    &&& w.chart.columns.len() == i + 1
    &&& earley_complete::links_true(g, w.chart, start, i as int)
    &&& earley_complete::items_labelled(g, w.chart.forest, column, i)
    &&& no_terminals(g, w.chart, i as int)
    &&& forall|k: int| 0 <= k < w.stack.len() ==> column.contains(#[trigger] w.stack[k])
    &&& forall|k: int|
        0 <= k < column.len() ==> w.stack.contains(#[trigger] column[k]) || handled(
            g,
            w,
            i,
            column[k],
        ) && passed(g, w, i, column[k])
}

proof fn lemma_settled_stays(
    g: earley_chart::Context,
    m: earley_chart::ChartModel,
    n: earley_chart::ChartModel,
    i: int,
    a: SymbolId,
    j: int,
)
    requires
        earley_complete::more_in(m, n, i),
        settled_at(g, m, i, a, j),
        0 <= j < i,
        m.trans.len() == m.columns.len(),
        forall|c: int|
            0 <= c < m.trans.len() ==> earley_chart::row_ok(m, c, #[trigger] m.trans[c]),
    ensures
        settled_at(g, n, i, a, j),
{
    let by_link = match earley_chart::find_trans(m.trans[j], a, 0) {
        Some(t) => earley_complete::present(m, i, m.arena[t as int].top),
        None => false,
    };
    if by_link {
        let t = earley_chart::find_trans(m.trans[j], a, 0)->0;
        earley_leo::lemma_find_trans(m.trans[j], a, 0);
        assert(earley_chart::row_ok(m, j, m.trans[j]));
        let k = choose|k: int| 0 <= k < m.trans[j].len() && #[trigger] m.trans[j][k] == (a, t);
        assert(m.trans[j][k].1 < m.arena.len());
        assert(earley_complete::continues(m.trans[j], n.trans[j]));
        earley_complete::lemma_find_trans_continues(m.trans[j], n.trans[j], a, 0);
        earley_complete::lemma_continues_index(m.arena, n.arena, t as int);
        earley_complete::lemma_present_stays(m, n, i, m.arena[t as int].top);
    } else {
        assert(n.columns[j] == m.columns[j]);
        assert forall|k: int|
            0 <= k < n.columns[j].len() && earley_chart::expected(g, #[trigger] n.columns[j][k])
                == Some(a) implies earley_complete::present(
            n,
            i,
            earley_complete::next_item(n.columns[j][k]),
        ) by {
            assert(earley_complete::present(
                m,
                i,
                earley_complete::next_item(m.columns[j][k]),
            ));
            earley_complete::lemma_present_stays(
                m,
                n,
                i,
                earley_complete::next_item(m.columns[j][k]),
            );
        }
    }
}

proof fn lemma_handled_stays(
    g: earley_chart::Context,
    w: earley_recognizer::Work,
    v: earley_recognizer::Work,
    i: usize,
    x: Item,
)
    requires
        earley_complete::more_in(w.chart, v.chart, i as int),
        w.chart.trans.len() == w.chart.columns.len(),
        forall|c: int|
            0 <= c < w.chart.trans.len() ==> earley_chart::row_ok(
                w.chart,
                c,
                #[trigger] w.chart.trans[c],
            ),
        handled(g, w, i, x),
        x.origin <= i,
        g.rules[x.rule as int].origin.ix() < w.held.len(),
        forall|q: int|
            0 <= q < w.held.len() && w.held[q] is Some ==> #[trigger] v.held[q] is Some,
    ensures
        handled(g, v, i, x),
{
    let a = g.rules[x.rule as int].origin;
    match earley_chart::expected(g, x) {
        None => {
            assert(earley_complete::has_label(v.chart.forest, NodeKey::Sym(a), x.origin, i));
            if x.origin < i {
                lemma_settled_stays(g, w.chart, v.chart, i as int, a, x.origin as int);
            }
        },
        Some(s) => {
            if s.ix() >= g.nt {
                assert forall|r: int|
                    0 <= r < g.rules.len() && (#[trigger] g.rules[r]).origin == s implies
                    earley_complete::present(v.chart, i as int, earley_chart::fresh(r, i)) by {
                    earley_complete::lemma_present_stays(
                        w.chart,
                        v.chart,
                        i as int,
                        earley_chart::fresh(r, i),
                    );
                }
            }
        },
    }
}

/// A complete item gets a node.
pub proof fn lemma_node_for_more(
    g: earley_chart::Context,
    m: earley_chart::ChartModel,
    i: usize,
    stack: Seq<Item>,
    item: Item,
)
    requires
        i < m.columns.len(),
        m.columns[i as int].contains(item),
        earley_chart::is_done(g, item),
        earley_complete::items_labelled(g, m.forest, m.columns[i as int], i),
    ensures
        ({
            let n = earley_recognizer::node_for(g, m, i, item).0;
            &&& earley_complete::more_work(m, stack, n, stack, i as int)
            &&& n == earley_chart::ChartModel { forest: n.forest, ..m }
            &&& earley_complete::items_labelled(g, n.forest, n.columns[i as int], i)
            &&& earley_complete::has_label(
                n.forest,
                NodeKey::Sym(g.rules[item.rule as int].origin),
                item.origin,
                i,
            )
        }),
{
    let n = earley_recognizer::node_for(g, m, i, item).0;
    let key = NodeKey::Sym(g.rules[item.rule as int].origin);
    match item.node {
        ForestRef::Node(id) => {
            earley_complete::lemma_forest_more(m, m.forest, stack, i as int);
            let k = choose|k: int|
                0 <= k < m.columns[i as int].len() && m.columns[i as int][k] == item;
            assert(m.columns[i as int][k].node is Node);
        },
        _ => {
            earley_complete::lemma_got_label(m.forest, key, item.origin, i);
            let f = earley_forest::got(m.forest, key, item.origin, i).0;
            earley_complete::lemma_updated_labels(f, n.forest);
            earley_complete::lemma_labels_trans(m.forest, f, n.forest);
            earley_complete::lemma_forest_more(m, n.forest, stack, i as int);
            earley_complete::lemma_items_labelled_more(
                g,
                m.forest,
                n.forest,
                m.columns[i as int],
                i,
            );
        },
    }
}

pub proof fn lemma_leapt_more(
    g: earley_chart::Context,
    m: earley_chart::ChartModel,
    i: usize,
    stack: Seq<Item>,
    t: usize,
    id: usize,
)
    requires
        i < m.columns.len(),
        earley_complete::items_labelled(g, m.forest, m.columns[i as int], i),
    ensures
        ({
            let (n, s) = earley_recognizer::leapt(g, m, i, stack, t, id);
            &&& earley_complete::more_work(m, stack, n, s, i as int)
            &&& earley_complete::items_labelled(g, n.forest, n.columns[i as int], i)
            &&& earley_complete::present(n, i as int, m.arena[t as int].top)
            &&& n.arena == m.arena
            &&& n.trans == m.trans
        }),
{
    let top = m.arena[t as int].top;
    let key = earley_chart::key_at(g, top.rule, top.dot as int);
    let (f, top_node) = earley_forest::got(m.forest, key, top.origin, i);
    earley_complete::lemma_got_label(m.forest, key, top.origin, i);
    let h = earley_forest::path_added(f, top_node, (t, ForestRef::Node(id), i));
    earley_complete::lemma_updated_labels(f, h);
    earley_complete::lemma_labels_trans(m.forest, f, h);
    let m1 = earley_chart::ChartModel { forest: h, ..m };
    let item = Item { node: ForestRef::Node(top_node as usize), ..top };
    earley_complete::lemma_forest_more(m, h, stack, i as int);
    earley_complete::lemma_items_labelled_more(g, m.forest, h, m.columns[i as int], i);
    assert(earley_complete::has_label(h, key, top.origin, i));
    earley_complete::lemma_entered_more(g, m1, i as int, stack, item);
    earley_complete::lemma_entered_labelled(g, m1, i, stack, item);
    let (n, s) = earley_chart::entered(g, m1, i as int, stack, item);
    earley_complete::lemma_more_trans(m, stack, m1, stack, n, s, i as int);
    earley_complete::lemma_same_present(n, i as int, item, top);
}

pub proof fn lemma_completed_more(
    g: earley_chart::Context,
    l: reading::Reading,
    m: earley_chart::ChartModel,
    i: usize,
    stack: Seq<Item>,
    item: Item,
    id: usize,
    start: SymbolId,
)
    requires
        earley_chart::context_ok(g),
        earley_sound::chart_derived(g, l, m, i as int),
        earley_complete::links_true(g, m, start, i as int),
        earley_complete::items_labelled(g, m.forest, m.columns[i as int], i),
        item.origin <= i,
        earley_recognizer::completed(g, m, i, stack, item, id, start).0.arena.len() <= usize::MAX,
    ensures
        ({
            let (n, s) = earley_recognizer::completed(g, m, i, stack, item, id, start);
            let a = g.rules[item.rule as int].origin;
            &&& earley_complete::more_work(m, stack, n, s, i as int)
            &&& earley_complete::items_labelled(g, n.forest, n.columns[i as int], i)
            &&& earley_complete::links_true(g, n, start, i as int)
            &&& item.origin < i ==> settled_at(g, n, i as int, a, item.origin as int)
            &&& item.origin == i ==> forall|k: int|
                0 <= k < m.columns[i as int].len() && earley_chart::expected(
                    g,
                    #[trigger] m.columns[i as int][k],
                ) == Some(a) ==> earley_complete::present(
                    n,
                    i as int,
                    earley_complete::next_item(m.columns[i as int][k]),
                )
        }),
{
    let (n, s) = earley_recognizer::completed(g, m, i, stack, item, id, start);
    let a = g.rules[item.rule as int].origin;
    let j = item.origin as int;
    earley_sound::lemma_completed_arena(g, m, i, stack, item, id, start);
    let m1 = if item.origin != i {
        earley_leo::leo_created(g, m, a, item.origin, start)
    } else {
        m
    };
    earley_complete::lemma_more_refl(m, stack, i as int);
    if item.origin != i {
        earley_complete::lemma_leo_true(g, l, m, i as int, a, item.origin, start);
        assert(earley_complete::more_work(m, stack, m1, stack, i as int));
    }
    let shortcut = if item.origin != i {
        earley_chart::find_trans(m1.trans[j], a, 0)
    } else {
        None
    };
    match shortcut {
        Some(t) => {
            lemma_leapt_more(g, m1, i, stack, t, id);
            earley_complete::lemma_more_trans(m, stack, m1, stack, n, s, i as int);
        },
        None => {
            let items = earley_chart::waiting(g, m1.columns[j], a);
            earley_chart::lemma_waiting(g, m1.columns[j], a);
            assert forall|k: int| 0 <= k < items.len() implies (#[trigger] items[k]).dot
                < g.rules[items[k].rule as int].expansion.len() <= usize::MAX by {
                assert(m1.columns[j].contains(items[k]));
                let q = choose|q: int| 0 <= q < m1.columns[j].len() && m1.columns[j][q] == items[k];
                assert(earley_sound::items_derived(g, l, j, m.columns[j]));
                assert(earley_sound::item_derived(g, l, j, m.columns[j][q]));
                assert(earley_chart::expected(g, items[k]) == Some(a));
                assert(g.rules[items[k].rule as int].origin.ix() >= g.nt);
            }
            earley_complete::lemma_all_advanced_more(g, m1, i, stack, items, ForestRef::Node(id));
            earley_complete::lemma_more_trans(m, stack, m1, stack, n, s, i as int);
            assert forall|k: int|
                0 <= k < m.columns[j].len() && earley_chart::expected(g, #[trigger] m.columns[j][k])
                    == Some(a) implies earley_complete::present(
                n,
                i as int,
                earley_complete::next_item(m.columns[j][k]),
            ) by {
                assert(items.contains(m1.columns[j][k]));
                let q = choose|q: int| 0 <= q < items.len() && items[q] == m1.columns[j][k];
                assert(earley_complete::present(
                    n,
                    i as int,
                    earley_complete::next_item(items[q]),
                ));
            }
            if item.origin < i {
                assert(n.columns[j] == m.columns[j]);
            }
        },
    }
    lemma_links_stay(g, m1, n, start, i as int);
}

/// Links stay what they are meant to be while the last column grows.
pub proof fn lemma_links_stay(
    g: earley_chart::Context,
    m: earley_chart::ChartModel,
    n: earley_chart::ChartModel,
    start: SymbolId,
    i: int,
)
    requires
        earley_complete::links_true(g, m, start, i),
        n.columns.len() >= m.columns.len(),
        forall|c: int| 0 <= c < i ==> #[trigger] n.columns[c] == m.columns[c],
        n.arena == m.arena,
        forall|c: int| 0 <= c < i ==> #[trigger] n.trans[c] == m.trans[c],
    ensures
        earley_complete::links_true(g, n, start, i),
{
    assert forall|t: int| 0 <= t < n.arena.len() implies #[trigger] earley_complete::link_true(
        g,
        n,
        start,
        i,
        t,
    ) by {
        assert(earley_complete::link_true(g, m, start, i, t));
        assert(n.columns[m.arena[t].key_start as int] == m.columns[m.arena[t].key_start as int]);
        assert(n.trans[m.arena[t].key_start as int] == m.trans[m.arena[t].key_start as int]);
    }
}

/// What was handled stays handled, and what is new is yet to be processed.
proof fn lemma_full_after(
    g: earley_chart::Context,
    l: reading::Reading,
    w: earley_recognizer::Work,
    v: earley_recognizer::Work,
    i: usize,
    start: SymbolId,
)
    requires
        earley_sound::work_derived(g, l, w, i as int),
        work_full(g, w, i, start),
        w.stack.len() > 0,
        earley_complete::more_work(w.chart, w.stack.drop_last(), v.chart, v.stack, i as int),
        earley_complete::links_true(g, v.chart, start, i as int),
        earley_complete::items_labelled(g, v.chart.forest, v.chart.columns[i as int], i),
        no_terminals(g, v.chart, i as int),
        earley_chart::context_ok(g),
        forall|q: int|
            0 <= q < w.held.len() && w.held[q] is Some ==> #[trigger] v.held[q] is Some,
        handled(g, v, i, w.stack.last()),
        passed(g, v, i, w.stack.last()),
        forall|k: int|
            0 <= k < w.chart.columns[i as int].len() ==> {
                let x = #[trigger] w.chart.columns[i as int][k];
                passed(g, w, i, x) ==> passed(g, v, i, x)
            },
    ensures
        work_full(g, v, i, start),
{
    let a = w.chart.columns[i as int];
    let b = v.chart.columns[i as int];
    let rest = w.stack.drop_last();
    assert(b.len() - a.len() == v.stack.len() - rest.len()) by {
        assert(b.skip(a.len() as int).len() == v.stack.skip(rest.len() as int).len());
    }
    assert forall|k: int| 0 <= k < v.stack.len() implies b.contains(#[trigger] v.stack[k]) by {
        if k < rest.len() {
            earley_complete::lemma_continues_index(rest, v.stack, k);
            assert(a.contains(w.stack[k]));
            let q = choose|q: int| 0 <= q < a.len() && a[q] == w.stack[k];
            earley_complete::lemma_continues_index(a, b, q);
            assert(b[q] == v.stack[k]);
        } else {
            let q = k - rest.len();
            assert(b.skip(a.len() as int)[q] == v.stack.skip(rest.len() as int)[q]);
            assert(b[a.len() + q] == v.stack[k]);
        }
    }
    assert forall|k: int| 0 <= k < b.len() implies v.stack.contains(#[trigger] b[k]) || handled(
        g,
        v,
        i,
        b[k],
    ) && passed(g, v, i, b[k]) by {
        if k < a.len() {
            earley_complete::lemma_continues_index(a, b, k);
            if a[k] == w.stack.last() {
            } else if w.stack.contains(a[k]) {
                let q = choose|q: int| 0 <= q < w.stack.len() && w.stack[q] == a[k];
                assert(q < rest.len());
                assert(rest[q] == w.stack[q]);
                earley_complete::lemma_continues_index(rest, v.stack, q);
                assert(v.stack[q] == b[k]);
            } else {
                assert(earley_sound::items_derived(g, l, i as int, a));
                assert(earley_sound::item_derived(g, l, i as int, a[k]));
                assert(g.rules[a[k].rule as int].origin.ix() < g.n);
                lemma_handled_stays(g, w, v, i, a[k]);
            }
        } else {
            let q = k - a.len();
            assert(b.skip(a.len() as int)[q] == v.stack.skip(rest.len() as int)[q]);
            assert(v.stack[rest.len() + q] == b[k]);
        }
    }
}

proof fn lemma_all_advanced_kind(
    g: earley_chart::Context,
    m: earley_chart::ChartModel,
    i: usize,
    stack: Seq<Item>,
    items: Seq<Item>,
    right: ForestRef,
)
    requires
        no_terminals(g, m, i as int),
        i < m.columns.len(),
    ensures
        no_terminals(
            g,
            earley_chart::all_advanced(g, m, i, stack, items, right).0,
            i as int,
        ),
        earley_chart::all_advanced(g, m, i, stack, items, right).0.columns.len()
            == m.columns.len(),
    decreases items.len(),
{
    if items.len() > 0 {
        lemma_all_advanced_kind(g, m, i, stack, items.drop_last(), right);
    }
}

proof fn lemma_predicted_kind(
    g: earley_chart::Context,
    m: earley_chart::ChartModel,
    i: usize,
    stack: Seq<Item>,
    s: SymbolId,
    k: nat,
)
    requires
        no_terminals(g, m, i as int),
        i < m.columns.len(),
    ensures
        no_terminals(g, earley_chart::predicted(g, m, i, stack, s, k).0, i as int),
        earley_chart::predicted(g, m, i, stack, s, k).0.columns.len() == m.columns.len(),
    decreases k,
{
    if k > 0 {
        lemma_predicted_kind(g, m, i, stack, s, (k - 1) as nat);
    }
}

proof fn lemma_completed_kind(
    g: earley_chart::Context,
    m: earley_chart::ChartModel,
    i: usize,
    stack: Seq<Item>,
    item: Item,
    id: usize,
    start: SymbolId,
)
    requires
        no_terminals(g, m, i as int),
        i < m.columns.len(),
        item.origin != i ==> earley_leo::leo_created(
            g,
            m,
            g.rules[item.rule as int].origin,
            item.origin,
            start,
        ).columns == m.columns && earley_leo::leo_created(
            g,
            m,
            g.rules[item.rule as int].origin,
            item.origin,
            start,
        ).scan == m.scan,
    ensures
        no_terminals(
            g,
            earley_recognizer::completed(g, m, i, stack, item, id, start).0,
            i as int,
        ),
{
    let s = g.rules[item.rule as int].origin;
    let m1 = if item.origin != i {
        earley_leo::leo_created(g, m, s, item.origin, start)
    } else {
        m
    };
    lemma_all_advanced_kind(
        g,
        m1,
        i,
        stack,
        earley_chart::waiting(g, m1.columns[item.origin as int], s),
        ForestRef::Node(id),
    );
}

/// Processing an item leads to all that it leads to.
#[verifier::rlimit(40)]
pub proof fn lemma_step_full(
    g: earley_chart::Context,
    l: reading::Reading,
    w: earley_recognizer::Work,
    i: usize,
    start: SymbolId,
)
    requires
        earley_sound::context_true(g),
        earley_sound::work_derived(g, l, w, i as int),
        work_full(g, w, i, start),
        w.stack.len() > 0,
        earley_recognizer::work_step(g, w, i, start).chart.arena.len() <= usize::MAX,
    ensures
        work_full(g, earley_recognizer::work_step(g, w, i, start), i, start),
{
    let item = w.stack.last();
    let rest = w.stack.drop_last();
    let v = earley_recognizer::work_step(g, w, i, start);
    let column = w.chart.columns[i as int];
    assert(column.contains(w.stack[w.stack.len() - 1]));
    let at = choose|q: int| 0 <= q < column.len() && column[q] == item;
    assert(earley_sound::items_derived(g, l, i as int, column));
    assert(earley_sound::item_derived(g, l, i as int, column[at]));
    assert(no_terminals(g, w.chart, i as int));
    match earley_chart::expected(g, item) {
        None => {
            let a = g.rules[item.rule as int].origin;
            assert(a.ix() < g.n);
            lemma_node_for_more(g, w.chart, i, rest, item);
            let (m1, id) = earley_recognizer::node_for(g, w.chart, i, item);
            earley_sound::lemma_node_for_derived(g, l, w.chart, i, item);
            lemma_links_stay(g, w.chart, m1, start, i as int);
            lemma_completed_more(g, l, m1, i, rest, item, id, start);
            assert(no_terminals(g, m1, i as int));
            if item.origin != i {
                earley_sound::lemma_completed_arena(g, m1, i, rest, item, id, start);
                earley_complete::lemma_leo_true(g, l, m1, i as int, a, item.origin, start);
            }
            lemma_completed_kind(g, m1, i, rest, item, id, start);
            earley_complete::lemma_more_trans(
                w.chart,
                rest,
                m1,
                rest,
                v.chart,
                v.stack,
                i as int,
            );
            assert forall|k: int| 0 <= k < column.len() implies ({
                let x = #[trigger] column[k];
                passed(g, w, i, x) ==> passed(g, v, i, x)
            }) by {
                let x = column[k];
                if passed(g, w, i, x) {
                    if let Some(s) = earley_chart::expected(g, x) {
                        if s.ix() >= g.nt && v.held[s.ix() as int] is Some {
                            if w.held[s.ix() as int] is Some {
                                earley_complete::lemma_present_stays(
                                    w.chart,
                                    v.chart,
                                    i as int,
                                    earley_complete::next_item(x),
                                );
                            } else {
                                assert(earley_sound::item_derived(g, l, i as int, x));
                                assert(g.rules[x.rule as int].expansion[x.dot as int].ix() < g.n);
                                assert(s.ix() == a.ix());
                                assert(s == a);
                                assert(m1.columns[i as int][k] == x);
                            }
                        }
                    }
                }
            }
            assert(passed(g, v, i, item));
            assert(handled(g, v, i, item));
            lemma_full_after(g, l, w, v, i, start);
        },
        Some(s) => {
            assert(!earley_chart::wants_terminal(g, column[at]));
            assert(s.ix() < g.n) by {
                assert(g.rules[item.rule as int].expansion[item.dot as int].ix() < g.n);
            }
            earley_complete::lemma_predicted_more(g, w.chart, i, rest, s, g.rules.len());
            lemma_predicted_kind(g, w.chart, i, rest, s, g.rules.len());
            earley_sound::lemma_predicted_arena(g, w.chart, i, rest, s, g.rules.len());
            let (m1, s1) = earley_chart::predicted(g, w.chart, i, rest, s, g.rules.len());
            match w.held[s.ix() as int] {
                Some(h) => {
                    assert(g.rules[item.rule as int].origin.ix() >= g.nt);
                    earley_complete::lemma_advanced_more(
                        g,
                        m1,
                        i,
                        s1,
                        item,
                        ForestRef::Node(h),
                    );
                    earley_complete::lemma_more_trans(
                        w.chart,
                        rest,
                        m1,
                        s1,
                        v.chart,
                        v.stack,
                        i as int,
                    );
                },
                None => {
                    earley_complete::lemma_more_refl(m1, s1, i as int);
                },
            }
            assert(no_terminals(g, v.chart, i as int));
            lemma_links_stay(g, w.chart, v.chart, start, i as int);
            assert forall|r: int|
                0 <= r < g.rules.len() && (#[trigger] g.rules[r]).origin == s implies
                earley_complete::present(v.chart, i as int, earley_chart::fresh(r, i)) by {
                earley_complete::lemma_present_stays(
                    m1,
                    v.chart,
                    i as int,
                    earley_chart::fresh(r, i),
                );
            }
            assert(handled(g, v, i, item));
            assert forall|k: int| 0 <= k < column.len() implies ({
                let x = #[trigger] column[k];
                passed(g, w, i, x) ==> passed(g, v, i, x)
            }) by {
                let x = column[k];
                if passed(g, w, i, x) {
                    if let Some(z) = earley_chart::expected(g, x) {
                        if z.ix() >= g.nt && v.held[z.ix() as int] is Some {
                            earley_complete::lemma_present_stays(
                                w.chart,
                                v.chart,
                                i as int,
                                earley_complete::next_item(x),
                            );
                        }
                    }
                }
            }
            lemma_full_after(g, l, w, v, i, start);
        },
    }
}

proof fn lemma_step_links(
    g: earley_chart::Context,
    w: earley_recognizer::Work,
    i: usize,
    start: SymbolId,
)
    ensures
        earley_recognizer::work_step(g, w, i, start).chart.arena.len() >= w.chart.arena.len(),
{
    let item = w.stack.last();
    let rest = w.stack.drop_last();
    match earley_chart::expected(g, item) {
        None => {
            let (m1, id) = earley_recognizer::node_for(g, w.chart, i, item);
            earley_sound::lemma_completed_arena(g, m1, i, rest, item, id, start);
            let a = g.rules[item.rule as int].origin;
            let c = earley_leo::followed(
                g,
                m1,
                start,
                a,
                item.origin,
                Seq::empty(),
                Seq::empty(),
                None,
                earley_leo::chain_limit(),
            );
            if let Some(top) = c.top {
                earley_leo::lemma_linked_len(m1, c.made, c.parent, top);
            }
        },
        Some(s) => {
            earley_sound::lemma_predicted_arena(g, w.chart, i, rest, s, g.rules.len());
        },
    }
}

/// Processing items takes no link away.
pub proof fn lemma_run_links(
    g: earley_chart::Context,
    w: earley_recognizer::Work,
    i: usize,
    start: SymbolId,
    j: nat,
    k: nat,
)
    requires
        j <= k,
    ensures
        earley_recognizer::work_run(g, w, i, start, j).chart.arena.len()
            <= earley_recognizer::work_run(g, w, i, start, k).chart.arena.len(),
    decreases k,
{
    if j < k {
        lemma_run_links(g, w, i, start, j, (k - 1) as nat);
        lemma_step_links(
            g,
            earley_recognizer::work_run(g, w, i, start, (k - 1) as nat),
            i,
            start,
        );
    }
}

/// Processing an item adds to its column and to the items to process alike.
pub proof fn lemma_step_more(
    g: earley_chart::Context,
    l: reading::Reading,
    w: earley_recognizer::Work,
    i: usize,
    start: SymbolId,
)
    requires
        earley_sound::context_true(g),
        earley_sound::work_derived(g, l, w, i as int),
        work_full(g, w, i, start),
        w.stack.len() > 0,
        earley_recognizer::work_step(g, w, i, start).chart.arena.len() <= usize::MAX,
    ensures
        earley_complete::more_work(
            w.chart,
            w.stack.drop_last(),
            earley_recognizer::work_step(g, w, i, start).chart,
            earley_recognizer::work_step(g, w, i, start).stack,
            i as int,
        ),
{
    let item = w.stack.last();
    let rest = w.stack.drop_last();
    let v = earley_recognizer::work_step(g, w, i, start);
    let column = w.chart.columns[i as int];
    assert(column.contains(w.stack[w.stack.len() - 1]));
    let at = choose|q: int| 0 <= q < column.len() && column[q] == item;
    assert(earley_sound::items_derived(g, l, i as int, column));
    assert(earley_sound::item_derived(g, l, i as int, column[at]));
    match earley_chart::expected(g, item) {
        None => {
            lemma_node_for_more(g, w.chart, i, rest, item);
            let (m1, id) = earley_recognizer::node_for(g, w.chart, i, item);
            earley_sound::lemma_node_for_derived(g, l, w.chart, i, item);
            lemma_links_stay(g, w.chart, m1, start, i as int);
            lemma_completed_more(g, l, m1, i, rest, item, id, start);
            earley_complete::lemma_more_trans(
                w.chart,
                rest,
                m1,
                rest,
                v.chart,
                v.stack,
                i as int,
            );
        },
        Some(s) => {
            assert(!earley_chart::wants_terminal(g, column[at]));
            earley_complete::lemma_predicted_more(g, w.chart, i, rest, s, g.rules.len());
            let (m1, s1) = earley_chart::predicted(g, w.chart, i, rest, s, g.rules.len());
            if let Some(h) = w.held[s.ix() as int] {
                assert(g.rules[item.rule as int].origin.ix() >= g.nt);
                earley_complete::lemma_advanced_more(g, m1, i, s1, item, ForestRef::Node(h));
                earley_complete::lemma_more_trans(
                    w.chart,
                    rest,
                    m1,
                    s1,
                    v.chart,
                    v.stack,
                    i as int,
                );
            }
        },
    }
}

/// Processing items keeps all derived, and leads to all that they lead to.
pub proof fn lemma_run_full(
    g: earley_chart::Context,
    l: reading::Reading,
    w: earley_recognizer::Work,
    i: usize,
    start: SymbolId,
    k: nat,
)
    requires
        earley_sound::context_true(g),
        earley_sound::work_derived(g, l, w, i as int),
        work_full(g, w, i, start),
        forall|j: nat|
            j < k ==> (#[trigger] earley_recognizer::work_run(g, w, i, start, j)).stack.len() > 0,
        earley_recognizer::work_run(g, w, i, start, k).chart.arena.len() <= usize::MAX,
    ensures
        earley_sound::work_derived(
            g,
            l,
            earley_recognizer::work_run(g, w, i, start, k),
            i as int,
        ),
        work_full(g, earley_recognizer::work_run(g, w, i, start, k), i, start),
        earley_complete::more_in(
            w.chart,
            earley_recognizer::work_run(g, w, i, start, k).chart,
            i as int,
        ),
    decreases k,
{
    if k == 0 {
        earley_complete::lemma_more_refl(w.chart, w.stack, i as int);
    } else {
        let j = (k - 1) as nat;
        lemma_run_links(g, w, i, start, j, k);
        lemma_run_full(g, l, w, i, start, j);
        let u = earley_recognizer::work_run(g, w, i, start, j);
        assert(u.stack.len() > 0);
        earley_sound::lemma_step_derived(g, l, u, i, start);
        lemma_step_full(g, l, u, i, start);
        lemma_step_more(g, l, u, i, start);
        earley_complete::lemma_more_in_trans(
            w.chart,
            u.chart,
            earley_recognizer::work_run(g, w, i, start, k).chart,
            i as int,
        );
    }
}

// ---------------------------------------------------------------------------
// Scanning

proof fn lemma_shelved_labelled(
    g: earley_chart::Context,
    f: earley_forest::ForestModel,
    h: earley_forest::ForestModel,
    column: Seq<Item>,
    item: Item,
    end: usize,
)
    requires
        earley_complete::items_labelled(g, f, column, end),
        earley_complete::labels_kept(f, h),
        earley_complete::has_label(
            h,
            earley_chart::key_at(g, item.rule, item.dot as int),
            item.origin,
            end,
        ),
    ensures
        earley_complete::items_labelled(g, h, column, end),
        earley_complete::items_labelled(g, h, earley_chart::item_added(column, item), end),
{
    earley_complete::lemma_items_labelled_more(g, f, h, column, end);
}

pub proof fn lemma_added_has(s: Seq<Item>, item: Item, x: Item)
    ensures
        earley_chart::has_item(s, x) ==> earley_chart::has_item(
            earley_chart::item_added(s, item),
            x,
        ),
        earley_chart::same_item(item, x) ==> earley_chart::has_item(
            earley_chart::item_added(s, item),
            x,
        ),
{
    let t = earley_chart::item_added(s, item);
    if earley_chart::has_item(s, x) && !earley_chart::has_item(s, item) {
        let k = choose|k: int| 0 <= k < s.len() && earley_chart::same_item(#[trigger] s[k], x);
        assert(earley_chart::same_item(t[k], x));
    }
    if earley_chart::same_item(item, x) {
        if earley_chart::has_item(s, item) {
            earley_complete::lemma_same_has(s, item, x);
        } else {
            assert(earley_chart::same_item(t[s.len() as int], x));
        }
    }
}

/// Whether what scanning has made is derived, has nodes, and holds each item
/// that waited for the token, moved over it.
pub open spec fn scanned_full(
    g: earley_chart::Context,
    l: reading::Reading,
    f: earley_forest::ForestModel,
    items: Seq<Item>,
    t: SymbolId,
    i: int,
    s: earley_recognizer::Scanned,
    k: int,
) -> bool {
    &&& earley_sound::nodes_derived(g, l, s.forest)
    &&& earley_sound::items_derived(g, l, i + 1, s.column)
    &&& earley_sound::items_derived(g, l, i + 1, s.scan)
    &&& earley_complete::labels_kept(f, s.forest)
    &&& earley_complete::items_labelled(g, s.forest, s.column, (i + 1) as usize)
    &&& forall|q: int|
        0 <= q < s.column.len() ==> !earley_chart::wants_terminal(g, #[trigger] s.column[q])
    &&& forall|q: int|
        0 <= q < s.scan.len() ==> earley_chart::wants_terminal(g, #[trigger] s.scan[q])
    &&& forall|q: int|
        0 <= q < k && earley_chart::expected(g, #[trigger] items[q]) == Some(t)
            ==> earley_chart::has_item(s.column, earley_complete::next_item(items[q]))
            || earley_chart::has_item(s.scan, earley_complete::next_item(items[q]))
}

/// Scanning moves every item that waits for the token.
pub proof fn lemma_scanned_full(
    g: earley_chart::Context,
    l: reading::Reading,
    f: earley_forest::ForestModel,
    items: Seq<Item>,
    t: SymbolId,
    right: ForestRef,
    i: int,
    k: nat,
)
    requires
        earley_chart::context_ok(g),
        earley_sound::nodes_derived(g, l, f),
        earley_sound::items_derived(g, l, i, items),
        forall|q: int| 0 <= q < items.len() ==> earley_chart::wants_terminal(g, #[trigger] items[q]),
        0 <= i < l.size <= usize::MAX,
        reading::tok_at(l, i, i + 1, t),
        k <= items.len(),
    ensures
        scanned_full(
            g,
            l,
            f,
            items,
            t,
            i,
            earley_recognizer::scanned(g, f, items, t, right, (i + 1) as usize, k),
            k as int,
        ),
    decreases k,
{
    let end = (i + 1) as usize;
    let s = earley_recognizer::scanned(g, f, items, t, right, end, k);
    if k == 0 {
    } else {
        lemma_scanned_full(g, l, f, items, t, right, i, (k - 1) as nat);
        let p = earley_recognizer::scanned(g, f, items, t, right, end, (k - 1) as nat);
        let o = items[k - 1];
        if earley_chart::expected(g, o) == Some(t) {
            assert(earley_sound::item_derived(g, l, i, items[k - 1]));
            assert(earley_chart::wants_terminal(g, items[k - 1]));
            assert(g.rules[o.rule as int].expansion.len() <= usize::MAX) by {
                assert(g.rules[o.rule as int].origin.ix() >= g.nt);
            }
            reading::lemma_reads_token(g.rules, g.nt, l, t, i, i + 1);
            earley_sound::lemma_moved_nodes(g, l, p.forest, i, end, o, t, right);
            earley_complete::lemma_moved_label(g, p.forest, o, right, end);
            let (f1, item) = earley_chart::moved(g, p.forest, o, right, end);
            earley_complete::lemma_labels_trans(f, p.forest, f1);
            lemma_shelved_labelled(g, p.forest, f1, p.column, item, end);
            assert forall|q: int|
                0 <= q < k && earley_chart::expected(g, #[trigger] items[q]) == Some(t) implies
                earley_chart::has_item(s.column, earley_complete::next_item(items[q]))
                || earley_chart::has_item(s.scan, earley_complete::next_item(items[q])) by {
                let x = earley_complete::next_item(items[q]);
                lemma_added_has(p.column, item, x);
                lemma_added_has(p.scan, item, x);
                if q == k - 1 {
                    assert(earley_chart::same_item(item, x));
                }
            }
        }
    }
}

// ---------------------------------------------------------------------------
// History

/// Whether a symbol begun at column `j` has led on, where `h` are the items of
/// the column at which it is complete.
pub open spec fn settled(
    g: earley_chart::Context,
    m: earley_chart::ChartModel,
    h: Seq<Item>,
    a: SymbolId,
    j: int,
) -> bool {
    ||| match earley_chart::find_trans(m.trans[j], a, 0) {
        Some(t) => t < m.arena.len() && earley_chart::has_item(h, m.arena[t as int].top),
        None => false,
    }
    ||| forall|k: int|
        0 <= k < m.columns[j].len() && earley_chart::expected(g, #[trigger] m.columns[j][k])
            == Some(a) ==> earley_chart::has_item(
            h,
            earley_complete::next_item(m.columns[j][k]),
        )
}

/// Whether the rules of `s` begin at column `c`, where `h` are its items.
pub open spec fn begins(g: earley_chart::Context, h: Seq<Item>, s: SymbolId, c: int) -> bool {
    forall|r: int|
        0 <= r < g.rules.len() && (#[trigger] g.rules[r]).origin == s ==> earley_chart::has_item(
            h,
            earley_chart::fresh(r, c as usize),
        )
}

/// Whether an item of column `c`, whose items are `h`, has led to all that it
/// leads to in that column.
pub open spec fn item_full(
    g: earley_chart::Context,
    m: earley_chart::ChartModel,
    h: Seq<Item>,
    c: int,
    x: Item,
) -> bool {
    let a = g.rules[x.rule as int].origin;
    &&& x.rule < g.rules.len()
    &&& x.dot <= g.rules[x.rule as int].expansion.len()
    &&& x.origin <= c
    &&& !earley_chart::wants_terminal(g, x) ==> earley_chart::has_item(m.columns[c], x)
    &&& match earley_chart::expected(g, x) {
        None => {
            &&& earley_complete::has_label(m.forest, NodeKey::Sym(a), x.origin, c as usize)
            &&& settled(g, m, h, a, x.origin as int)
        },
        Some(s) => s.ix() >= g.nt ==> begins(g, h, s, c),
    }
}

/// Whether column `c`, whose items are `h`, is complete.
pub open spec fn column_full(
    g: earley_chart::Context,
    m: earley_chart::ChartModel,
    h: Seq<Item>,
    c: int,
) -> bool {
    &&& forall|k: int| 0 <= k < h.len() ==> item_full(g, m, h, c, #[trigger] h[k])
    &&& forall|k: int|
        0 <= k < m.columns[c].len() ==> earley_chart::has_item(h, #[trigger] m.columns[c][k])
}

/// Whether each item of `h` that waits for `t` stands, moved over it, in `n`.
pub open spec fn carried(
    g: earley_chart::Context,
    h: Seq<Item>,
    t: SymbolId,
    n: Seq<Item>,
) -> bool {
    forall|k: int|
        0 <= k < h.len() && earley_chart::expected(g, #[trigger] h[k]) == Some(t) && t.ix() < g.nt
            ==> earley_chart::has_item(n, earley_complete::next_item(h[k]))
}

/// Whether an item stands past what is ignored: it waits for a terminal, or is
/// the whole start symbol.
pub open spec fn stands(g: earley_chart::Context, start: SymbolId, x: Item) -> bool {
    earley_chart::wants_terminal(g, x) || earley_dynamic::is_whole(g, start, x)
}

/// Whether each item of `h` that stands past what is ignored stands in `n`.
pub open spec fn stays(
    g: earley_chart::Context,
    start: SymbolId,
    h: Seq<Item>,
    n: Seq<Item>,
) -> bool {
    forall|k: int|
        0 <= k < h.len() && stands(g, start, #[trigger] h[k]) ==> earley_chart::has_item(n, h[k])
}

/// Whether the chart up to column `i` is complete and derived, where `hist` are
/// the items of its columns.
pub open spec fn full_to(
    g: earley_chart::Context,
    start: SymbolId,
    l: reading::Reading,
    m: earley_chart::ChartModel,
    hist: Seq<Seq<Item>>,
    i: int,
) -> bool {
    &&& 0 <= i <= l.size
    &&& hist.len() == i + 1
    &&& m.columns.len() == i + 1
    &&& earley_sound::chart_derived(g, l, m, i)
    &&& no_terminals(g, m, i)
    &&& earley_complete::links_true(g, m, start, i)
    &&& hist[i] == m.columns[i] + m.scan
    &&& begins(g, hist[0], start, 0)
    &&& forall|c: int| 0 <= c <= i ==> column_full(g, m, #[trigger] hist[c], c)
    &&& forall|c: int, d: int, t: SymbolId|
        d <= i && #[trigger] reading::tok_at(l, c, d, t) ==> carried(g, hist[c], t, hist[d])
    &&& forall|c: int, d: int|
        d <= i && #[trigger] reading::gap_at(l, c, d) ==> stays(g, start, hist[c], hist[d])
}

pub proof fn lemma_present_all(m: earley_chart::ChartModel, i: int, x: Item)
    ensures
        earley_complete::present(m, i, x) == earley_chart::has_item(m.columns[i] + m.scan, x),
{
    let a = m.columns[i];
    let b = m.scan;
    let h = a + b;
    if earley_chart::has_item(a, x) {
        let k = choose|k: int| 0 <= k < a.len() && earley_chart::same_item(#[trigger] a[k], x);
        assert(earley_chart::same_item(h[k], x));
    }
    if earley_chart::has_item(b, x) {
        let k = choose|k: int| 0 <= k < b.len() && earley_chart::same_item(#[trigger] b[k], x);
        assert(earley_chart::same_item(h[a.len() + k], x));
    }
    if earley_chart::has_item(h, x) {
        let k = choose|k: int| 0 <= k < h.len() && earley_chart::same_item(#[trigger] h[k], x);
        if k < a.len() {
            assert(earley_chart::same_item(a[k], x));
        } else {
            assert(earley_chart::same_item(b[k - a.len()], x));
        }
    }
}

/// A closed column is complete.
proof fn lemma_closed_full(
    g: earley_chart::Context,
    l: reading::Reading,
    w: earley_recognizer::Work,
    i: usize,
    start: SymbolId,
)
    requires
        earley_chart::context_ok(g),
        earley_sound::work_derived(g, l, w, i as int),
        work_full(g, w, i, start),
        w.stack.len() == 0,
    ensures
        column_full(g, w.chart, w.chart.columns[i as int] + w.chart.scan, i as int),
{
    let m = w.chart;
    let column = m.columns[i as int];
    let h = column + m.scan;
    assert forall|k: int| 0 <= k < h.len() implies item_full(
        g,
        m,
        h,
        i as int,
        #[trigger] h[k],
    ) by {
        let x = h[k];
        if k < column.len() {
            assert(column[k] == x);
            assert(earley_sound::items_derived(g, l, i as int, column));
            assert(earley_sound::item_derived(g, l, i as int, column[k]));
            assert(earley_chart::same_item(column[k], x));
            assert(!w.stack.contains(column[k]));
            assert(handled(g, w, i, column[k]));
            let a = g.rules[x.rule as int].origin;
            match earley_chart::expected(g, x) {
                None => {
                    if x.origin == i {
                        assert forall|q: int|
                            0 <= q < column.len() && earley_chart::expected(
                                g,
                                #[trigger] m.columns[i as int][q],
                            ) == Some(a) implies earley_chart::has_item(
                            h,
                            earley_complete::next_item(column[q]),
                        ) by {
                            assert(!w.stack.contains(column[q]));
                            assert(passed(g, w, i, column[q]));
                            assert(a.ix() >= g.nt);
                            lemma_present_all(
                                m,
                                i as int,
                                earley_complete::next_item(column[q]),
                            );
                        }
                    } else {
                        lemma_settled_all(g, m, i as int, a, x.origin as int);
                    }
                },
                Some(s) => {
                    if s.ix() >= g.nt {
                        assert forall|r: int|
                            0 <= r < g.rules.len() && (#[trigger] g.rules[r]).origin == s implies
                            earley_chart::has_item(h, earley_chart::fresh(r, i)) by {
                            lemma_present_all(m, i as int, earley_chart::fresh(r, i));
                        }
                    }
                },
            }
        } else {
            assert(m.scan[k - column.len()] == x);
            assert(earley_chart::wants_terminal(g, m.scan[k - column.len()]));
            assert(earley_sound::item_derived(g, l, i as int, m.scan[k - column.len()]));
        }
    }
    assert forall|k: int| 0 <= k < column.len() implies earley_chart::has_item(
        h,
        #[trigger] m.columns[i as int][k],
    ) by {
        assert(earley_chart::same_item(h[k], column[k]));
    }
}

proof fn lemma_settled_all(
    g: earley_chart::Context,
    m: earley_chart::ChartModel,
    i: int,
    a: SymbolId,
    j: int,
)
    requires
        settled_at(g, m, i, a, j),
        0 <= j < m.trans.len(),
        forall|c: int| 0 <= c < m.trans.len() ==> earley_chart::row_ok(m, c, #[trigger] m.trans[c]),
    ensures
        settled(g, m, m.columns[i] + m.scan, a, j),
{
    let h = m.columns[i] + m.scan;
    let by_link = match earley_chart::find_trans(m.trans[j], a, 0) {
        Some(t) => earley_complete::present(m, i, m.arena[t as int].top),
        None => false,
    };
    if by_link {
        let t = earley_chart::find_trans(m.trans[j], a, 0)->0;
        earley_leo::lemma_find_trans(m.trans[j], a, 0);
        assert(earley_chart::row_ok(m, j, m.trans[j]));
        let k = choose|k: int| 0 <= k < m.trans[j].len() && #[trigger] m.trans[j][k] == (a, t);
        assert(m.trans[j][k].1 < m.arena.len());
        lemma_present_all(m, i, m.arena[t as int].top);
    } else {
        assert forall|k: int|
            0 <= k < m.columns[j].len() && earley_chart::expected(g, #[trigger] m.columns[j][k])
                == Some(a) implies earley_chart::has_item(
            h,
            earley_complete::next_item(m.columns[j][k]),
        ) by {
            lemma_present_all(m, i, earley_complete::next_item(m.columns[j][k]));
        }
    }
}

/// A complete column stays complete.
pub proof fn lemma_column_stays(
    g: earley_chart::Context,
    m: earley_chart::ChartModel,
    n: earley_chart::ChartModel,
    h: Seq<Item>,
    c: int,
)
    requires
        column_full(g, m, h, c),
        0 <= c < m.columns.len() <= n.columns.len(),
        m.trans.len() == m.columns.len(),
        n.trans.len() == n.columns.len(),
        forall|q: int| 0 <= q < m.columns.len() ==> #[trigger] n.columns[q] == m.columns[q],
        forall|q: int|
            0 <= q < m.trans.len() ==> earley_complete::continues(
                m.trans[q],
                #[trigger] n.trans[q],
            ),
        earley_complete::continues(m.arena, n.arena),
        earley_complete::labels_kept(m.forest, n.forest),
    ensures
        column_full(g, n, h, c),
{
    assert(n.columns[c] == m.columns[c]);
    assert forall|k: int| 0 <= k < h.len() implies item_full(g, n, h, c, #[trigger] h[k]) by {
        let x = h[k];
        assert(item_full(g, m, h, c, h[k]));
        let a = g.rules[x.rule as int].origin;
        if earley_chart::expected(g, x) is None {
            let j = x.origin as int;
            assert(earley_complete::has_label(n.forest, NodeKey::Sym(a), x.origin, c as usize));
            let by_link = match earley_chart::find_trans(m.trans[j], a, 0) {
                Some(t) => t < m.arena.len() && earley_chart::has_item(h, m.arena[t as int].top),
                None => false,
            };
            assert(n.columns[j] == m.columns[j]);
            if by_link {
                let t = earley_chart::find_trans(m.trans[j], a, 0)->0;
                assert(earley_complete::continues(m.trans[j], n.trans[j]));
                earley_complete::lemma_find_trans_continues(m.trans[j], n.trans[j], a, 0);
                earley_complete::lemma_continues_index(m.arena, n.arena, t as int);
            }
        }
    }
}

/// Before any item of a column is processed, all are yet to be.
pub proof fn lemma_begun_full(
    g: earley_chart::Context,
    l: reading::Reading,
    m: earley_chart::ChartModel,
    i: usize,
    start: SymbolId,
)
    requires
        earley_sound::chart_derived(g, l, m, i as int),
        m.columns.len() == i + 1,
        earley_complete::links_true(g, m, start, i as int),
        earley_complete::items_labelled(g, m.forest, m.columns[i as int], i),
        no_terminals(g, m, i as int),
    ensures
        earley_sound::work_derived(g, l, earley_recognizer::begun(g, m, i as int), i as int),
        work_full(g, earley_recognizer::begun(g, m, i as int), i, start),
{
    let w = earley_recognizer::begun(g, m, i as int);
    assert(earley_sound::items_derived(g, l, i as int, m.columns[i as int]));
    assert forall|k: int| 0 <= k < w.stack.len() implies m.columns[i as int].contains(
        #[trigger] w.stack[k],
    ) by {
        assert(m.columns[i as int][k] == w.stack[k]);
    }
    assert forall|k: int| 0 <= k < m.columns[i as int].len() implies w.stack.contains(
        #[trigger] m.columns[i as int][k],
    ) by {
        assert(w.stack[k] == m.columns[i as int][k]);
    }
}

/// Closing a column completes it.
pub proof fn lemma_closed_at_full(
    g: earley_chart::Context,
    l: reading::Reading,
    m: earley_chart::ChartModel,
    i: usize,
    start: SymbolId,
    n: earley_chart::ChartModel,
)
    requires
        earley_sound::context_true(g),
        earley_sound::chart_derived(g, l, m, i as int),
        m.columns.len() == i + 1,
        earley_complete::links_true(g, m, start, i as int),
        earley_complete::items_labelled(g, m.forest, m.columns[i as int], i),
        no_terminals(g, m, i as int),
        earley_recognizer::closed_at(g, m, i, start, n),
    ensures
        earley_sound::chart_derived(g, l, n, i as int),
        n.columns.len() == i + 1,
        earley_complete::links_true(g, n, start, i as int),
        no_terminals(g, n, i as int),
        column_full(g, n, n.columns[i as int] + n.scan, i as int),
        earley_complete::more_in(m, n, i as int),
{
    let w = earley_recognizer::begun(g, m, i as int);
    let (k, v) = choose|k: nat, v: earley_recognizer::Work|
        #[trigger] earley_recognizer::work_reaches(g, w, i, start, v, k) && v.stack.len() == 0
            && v.chart == n && n.arena.len() <= usize::MAX;
    lemma_begun_full(g, l, m, i, start);
    lemma_run_full(g, l, w, i, start, k);
    lemma_closed_full(g, l, v, i, start);
}

/// Whether column `i` can be closed.
pub open spec fn can_close(
    g: earley_chart::Context,
    l: reading::Reading,
    m: earley_chart::ChartModel,
    i: usize,
    start: SymbolId,
) -> bool {
    &&& earley_sound::chart_derived(g, l, m, i as int)
    &&& m.columns.len() == i + 1
    &&& earley_complete::links_true(g, m, start, i as int)
    &&& earley_complete::items_labelled(g, m.forest, m.columns[i as int], i)
    &&& no_terminals(g, m, i as int)
}

/// The first column can be closed.
pub proof fn lemma_started_full(
    g: earley_chart::Context,
    l: reading::Reading,
    start: SymbolId,
)
    requires
        earley_sound::context_true(g),
    ensures
        can_close(g, l, earley_recognizer::started(g, start), 0, start),
{
    let b = earley_recognizer::blank_chart();
    assert(earley_sound::chart_derived(g, l, b, 0));
    assert(no_terminals(g, b, 0));
    earley_sound::lemma_predicted_derived(g, l, b, 0, Seq::empty(), start, g.rules.len());
    earley_sound::lemma_predicted_arena(g, b, 0, Seq::empty(), start, g.rules.len());
    earley_complete::lemma_predicted_more(g, b, 0, Seq::empty(), start, g.rules.len());
    lemma_predicted_kind(g, b, 0, Seq::empty(), start, g.rules.len());
}

/// The column after a closed one can be closed.
pub proof fn lemma_scan_full(
    g: earley_chart::Context,
    l: reading::Reading,
    start: SymbolId,
    j: int,
    p: earley_chart::ChartModel,
    hist: Seq<Seq<Item>>,
    t: tree::TokenModel,
)
    requires
        earley_sound::context_true(g),
        full_to(g, start, l, p, hist, j),
        j < l.size <= usize::MAX,
        reading::tok_at(l, j, j + 1, t.type_id),
    ensures
        earley_recognizer::scan_step(g, p, t) matches Some(n) ==> can_close(
            g,
            l,
            n,
            (j + 1) as usize,
            start,
        ),
{
    let i = (j + 1) as usize;
    let f = earley_forest::token_added(p.forest, t);
    let right = ForestRef::Tok(p.forest.tokens.len() as usize);
    let s = earley_recognizer::scanned(g, f, p.scan, t.type_id, right, i, p.scan.len());
    let n = earley_recognizer::next_chart(p, s);
    assert(earley_sound::nodes_derived(g, l, f));
    lemma_scanned_full(g, l, f, p.scan, t.type_id, right, j, p.scan.len());
    assert(earley_sound::chart_derived(g, l, n, i as int)) by {
        assert forall|c: int| 0 <= c < n.columns.len() implies earley_sound::items_derived(
            g,
            l,
            c,
            #[trigger] n.columns[c],
        ) by {
            if c < p.columns.len() {
                assert(n.columns[c] == p.columns[c]);
            }
        }
        assert forall|c: int| 0 <= c < n.trans.len() implies earley_chart::row_ok(
            n,
            c,
            #[trigger] n.trans[c],
        ) by {
            if c < p.trans.len() {
                assert(n.trans[c] == p.trans[c]);
                assert(earley_chart::row_ok(p, c, p.trans[c]));
            }
        }
    }
    lemma_links_stay(g, p, n, start, j);
    assert(earley_complete::links_true(g, n, start, i as int)) by {
        assert forall|q: int| 0 <= q < n.arena.len() implies #[trigger] earley_complete::link_true(
            g,
            n,
            start,
            i as int,
            q,
        ) by {
            assert(earley_complete::link_true(g, n, start, j, q));
        }
    }
    assert(n.columns[i as int] == s.column);
}

/// The chart up to the next column is complete and derived.
pub proof fn lemma_next_full(
    g: earley_chart::Context,
    start: SymbolId,
    tokens: Seq<tree::TokenModel>,
    types: Seq<SymbolId>,
    i: nat,
    p: earley_chart::ChartModel,
    before: Seq<Seq<Item>>,
    m: earley_chart::ChartModel,
)
    requires
        earley_sound::context_true(g),
        i > 0,
        full_to(g, start, reading::of_types(types, start), p, before, i - 1),
        earley_recognizer::follows(g, start, tokens, i as int, p, m),
        i <= types.len() <= usize::MAX,
        tokens[i - 1].type_id == types[i - 1],
    ensures
        full_to(
            g,
            start,
            reading::of_types(types, start),
            m,
            before.push(m.columns[i as int] + m.scan),
            i as int,
        ),
{
    let l = reading::of_types(types, start);
    let j = (i - 1) as nat;
    let t = tokens[j as int];
    assert(t.type_id == types[j as int]);
    let f = earley_forest::token_added(p.forest, t);
    let right = ForestRef::Tok(p.forest.tokens.len() as usize);
    let s = earley_recognizer::scanned(
        g,
        f,
        p.scan,
        t.type_id,
        right,
        i as usize,
        p.scan.len(),
    );
    let n = earley_recognizer::next_chart(p, s);
    assert(earley_recognizer::scan_step(g, p, t) == Some(n));
    assert(earley_sound::nodes_derived(g, l, f));
    assert(reading::tok_at(l, j as int, j as int + 1, t.type_id));
    lemma_scanned_full(g, l, f, p.scan, t.type_id, right, j as int, p.scan.len());
    earley_complete::lemma_updated_labels(p.forest, f);
    earley_complete::lemma_labels_trans(p.forest, f, s.forest);
    lemma_scan_full(g, l, start, j as int, p, before, t);
    assert(n.columns[i as int] == s.column);
    lemma_closed_at_full(g, l, n, i as usize, start, m);
    let last = m.columns[i as int] + m.scan;
    let hist = before.push(last);
    assert forall|c: int| 0 <= c <= i implies column_full(g, m, #[trigger] hist[c], c) by {
        if c < i {
            assert(hist[c] == before[c]);
            assert(column_full(g, p, before[c], c));
            assert forall|q: int| 0 <= q < p.trans.len() implies earley_complete::continues(
                p.trans[q],
                #[trigger] m.trans[q],
            ) by {
                assert(n.trans[q] == p.trans[q]);
                assert(earley_complete::continues(n.trans[q], m.trans[q]));
            }
            assert forall|q: int| 0 <= q < p.columns.len() implies #[trigger] m.columns[q]
                == p.columns[q] by {
                assert(n.columns[q] == p.columns[q]);
                assert(m.columns[q] == n.columns[q]);
            }
            earley_complete::lemma_labels_trans(p.forest, s.forest, m.forest);
            lemma_column_stays(g, p, m, before[c], c);
        }
    }
    assert forall|c: int, d: int, ty: SymbolId|
        d <= i && #[trigger] reading::tok_at(l, c, d, ty) implies carried(
        g,
        hist[c],
        ty,
        hist[d],
    ) by {
        assert(hist[c] == before[c]);
        if c < j {
            assert(carried(g, before[c], ty, before[d]));
            assert(hist[d] == before[d]);
        } else {
            let h = before[c];
            assert(hist[d] == last);
            assert forall|k: int|
                0 <= k < h.len() && earley_chart::expected(g, #[trigger] h[k]) == Some(ty)
                    && ty.ix() < g.nt implies earley_chart::has_item(
                last,
                earley_complete::next_item(h[k]),
            ) by {
                let x = h[k];
                if k < p.columns[c].len() {
                    assert(h[k] == p.columns[c][k]);
                    assert(!earley_chart::wants_terminal(g, p.columns[c][k]));
                } else {
                    let q = k - p.columns[c].len();
                    assert(p.scan[q] == h[k]);
                    assert(earley_chart::expected(g, p.scan[q]) == Some(t.type_id));
                    assert(earley_complete::present(
                        n,
                        i as int,
                        earley_complete::next_item(p.scan[q]),
                    ));
                    earley_complete::lemma_present_stays(
                        n,
                        m,
                        i as int,
                        earley_complete::next_item(x),
                    );
                    lemma_present_all(m, i as int, earley_complete::next_item(x));
                }
            }
        }
    }
    assert(hist[0] == before[0]);
}

/// The chart up to a column is complete and derived.
pub proof fn lemma_charted_full(
    g: earley_chart::Context,
    start: SymbolId,
    tokens: Seq<tree::TokenModel>,
    types: Seq<SymbolId>,
    i: nat,
    m: earley_chart::ChartModel,
) -> (hist: Seq<Seq<Item>>)
    requires
        earley_sound::context_true(g),
        earley_recognizer::charted(g, start, tokens, i, m),
        i <= types.len() <= usize::MAX,
        forall|k: int| 0 <= k < i ==> tokens[k].type_id == #[trigger] types[k],
    ensures
        full_to(g, start, reading::of_types(types, start), m, hist, i as int),
    decreases i,
{
    let l = reading::of_types(types, start);
    if i == 0 {
        let b = earley_recognizer::blank_chart();
        let m0 = earley_recognizer::started(g, start);
        lemma_started_full(g, l, start);
        earley_complete::lemma_predicted_more(g, b, 0, Seq::empty(), start, g.rules.len());
        lemma_closed_at_full(g, l, m0, 0, start, m);
        let hist = seq![m.columns[0] + m.scan];
        assert(begins(g, hist[0], start, 0)) by {
            assert forall|r: int|
                0 <= r < g.rules.len() && (#[trigger] g.rules[r]).origin == start implies
                earley_chart::has_item(hist[0], earley_chart::fresh(r, 0)) by {
                earley_complete::lemma_present_stays(m0, m, 0, earley_chart::fresh(r, 0));
                lemma_present_all(m, 0, earley_chart::fresh(r, 0));
            }
        }
        hist
    } else {
        let j = (i - 1) as nat;
        let p = choose|p: earley_chart::ChartModel|
            earley_recognizer::charted(g, start, tokens, j, p) && #[trigger] earley_recognizer::follows(
                g,
                start,
                tokens,
                i as int,
                p,
                m,
            );
        let before = lemma_charted_full(g, start, tokens, types, j, p);
        assert(tokens[j as int].type_id == types[j as int]);
        lemma_next_full(g, start, tokens, types, i, p, before, m);
        before.push(m.columns[i as int] + m.scan)
    }
}

} // verus!
