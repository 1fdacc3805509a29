//! Where the Earley chart has a symbol that spans nothing, the rules of that symbol
//! begin there.

use vstd::prelude::*;
use crate::earley_chart;
use crate::earley_complete;
use crate::earley_exact;
use crate::earley_fill;
use crate::earley_forest;
use crate::earley_forest::{ForestRef, Item, NodeKey};
use crate::earley_leo;
use crate::earley_places;
use crate::earley_recognizer;
use crate::earley_shape;
use crate::earley_sound;
use crate::reading;
use crate::symbols::SymbolId;
use crate::tree;

verus! {

/// Whether the rules of `s` begin at column `i`, so far as it is made.
pub open spec fn has_begun(
    g: earley_chart::Context,
    m: earley_chart::ChartModel,
    i: int,
    s: SymbolId,
) -> bool {
    forall|r: int|
        0 <= r < g.rules.len() && (#[trigger] g.rules[r]).origin == s ==> earley_complete::present(
            m,
            i,
            earley_chart::fresh(r, i as usize),
        )
}

/// Whether an item begun at column `i` stands beside all rules of its symbol.
pub open spec fn item_sprung(
    g: earley_chart::Context,
    m: earley_chart::ChartModel,
    i: int,
    x: Item,
) -> bool {
    x.origin == i ==> has_begun(g, m, i, g.rules[x.rule as int].origin)
}

/// Whether a node ends at column `i` or before, and that of a symbol that spans
/// nothing stands where the rules of the symbol begin.
pub open spec fn node_sprung(
    g: earley_chart::Context,
    m: earley_chart::ChartModel,
    hist: Seq<Seq<Item>>,
    i: int,
    n: earley_forest::NodeModel,
) -> bool {
    &&& n.end <= i
    &&& match n.key {
        NodeKey::Sym(s) => n.start == n.end ==> if n.end < i {
            earley_exact::begins(g, hist[n.end as int], s, n.end as int)
        } else {
            has_begun(g, m, i, s)
        },
        NodeKey::Inter(_r, _d) => true,
    }
}

/// Whether items and nodes stand where the rules of their symbols begin, while
/// column `i` is made; `hist` are the items of the columns before it.
pub open spec fn is_sprung(
    g: earley_chart::Context,
    m: earley_chart::ChartModel,
    hist: Seq<Seq<Item>>,
    i: int,
) -> bool {
    &&& forall|k: int|
        0 <= k < m.columns[i].len() ==> item_sprung(g, m, i, #[trigger] m.columns[i][k])
    &&& forall|k: int| 0 <= k < m.scan.len() ==> item_sprung(g, m, i, #[trigger] m.scan[k])
    &&& forall|x: int|
        0 <= x < m.forest.nodes.len() ==> node_sprung(g, m, hist, i, #[trigger] m.forest.nodes[x])
}

/// Whether every node ends at column `i` or before, and those of symbols that span
/// nothing stand where the rules of the symbols begin; `hist` are the items of the columns up to `i`.
pub open spec fn chart_sprung(
    g: earley_chart::Context,
    m: earley_chart::ChartModel,
    hist: Seq<Seq<Item>>,
    i: int,
) -> bool {
    forall|x: int|
        0 <= x < m.forest.nodes.len() ==> (#[trigger] m.forest.nodes[x]).end <= i && match
            m.forest.nodes[x].key {
            NodeKey::Sym(s) => m.forest.nodes[x].start == m.forest.nodes[x].end
                ==> earley_exact::begins(
                g,
                hist[m.forest.nodes[x].end as int],
                s,
                m.forest.nodes[x].end as int,
            ),
            NodeKey::Inter(_r, _d) => true,
        }
}

proof fn lemma_begun_stays(
    g: earley_chart::Context,
    m: earley_chart::ChartModel,
    n: earley_chart::ChartModel,
    i: int,
    s: SymbolId,
)
    requires
        earley_complete::more_in(m, n, i),
        has_begun(g, m, i, s),
    ensures
        has_begun(g, n, i, s),
{
    assert forall|r: int| 0 <= r < g.rules.len() && (#[trigger] g.rules[r]).origin == s implies
        earley_complete::present(n, i, earley_chart::fresh(r, i as usize)) by {
        earley_complete::lemma_present_stays(m, n, i, earley_chart::fresh(r, i as usize));
    }
}

/// What stands where its rules begin still does as the column grows, where what is
/// new does.
proof fn lemma_sprung_stays(
    g: earley_chart::Context,
    m: earley_chart::ChartModel,
    n: earley_chart::ChartModel,
    hist: Seq<Seq<Item>>,
    i: int,
)
    requires
        is_sprung(g, m, hist, i),
        earley_complete::more_in(m, n, i),
        forall|k: int|
            m.columns[i].len() <= k < n.columns[i].len() ==> item_sprung(
                g,
                n,
                i,
                #[trigger] n.columns[i][k],
            ),
        forall|k: int|
            m.scan.len() <= k < n.scan.len() ==> item_sprung(g, n, i, #[trigger] n.scan[k]),
        m.forest.nodes.len() <= n.forest.nodes.len(),
        forall|x: int|
            0 <= x < m.forest.nodes.len() ==> earley_forest::labelled(
                #[trigger] n.forest.nodes[x],
                m.forest.nodes[x].key,
                m.forest.nodes[x].start,
                m.forest.nodes[x].end,
            ),
        forall|x: int|
            m.forest.nodes.len() <= x < n.forest.nodes.len() ==> node_sprung(
                g,
                n,
                hist,
                i,
                #[trigger] n.forest.nodes[x],
            ),
    ensures
        is_sprung(g, n, hist, i),
{
    assert forall|k: int| 0 <= k < n.columns[i].len() implies item_sprung(
        g,
        n,
        i,
        #[trigger] n.columns[i][k],
    ) by {
        if k < m.columns[i].len() {
            earley_complete::lemma_continues_index(m.columns[i], n.columns[i], k);
            let x = m.columns[i][k];
            assert(item_sprung(g, m, i, m.columns[i][k]));
            if x.origin == i {
                lemma_begun_stays(g, m, n, i, g.rules[x.rule as int].origin);
            }
        }
    }
    assert forall|k: int| 0 <= k < n.scan.len() implies item_sprung(
        g,
        n,
        i,
        #[trigger] n.scan[k],
    ) by {
        if k < m.scan.len() {
            earley_complete::lemma_continues_index(m.scan, n.scan, k);
            let x = m.scan[k];
            assert(item_sprung(g, m, i, m.scan[k]));
            if x.origin == i {
                lemma_begun_stays(g, m, n, i, g.rules[x.rule as int].origin);
            }
        }
    }
    assert forall|x: int| 0 <= x < n.forest.nodes.len() implies node_sprung(
        g,
        n,
        hist,
        i,
        #[trigger] n.forest.nodes[x],
    ) by {
        if x < m.forest.nodes.len() {
            let o = m.forest.nodes[x];
            assert(node_sprung(g, m, hist, i, m.forest.nodes[x]));
            if let NodeKey::Sym(s) = o.key {
                if o.start == o.end && o.end == i {
                    lemma_begun_stays(g, m, n, i, s);
                }
            }
        }
    }
}

/// What an item that enters a column makes of it.
proof fn lemma_entered_sprung(
    g: earley_chart::Context,
    m: earley_chart::ChartModel,
    hist: Seq<Seq<Item>>,
    i: int,
    stack: Seq<Item>,
    item: Item,
)
    requires
        is_sprung(g, m, hist, i),
        item_sprung(g, m, i, item),
        0 <= i < m.columns.len(),
    ensures
        is_sprung(g, earley_chart::entered(g, m, i, stack, item).0, hist, i),
{
    let n = earley_chart::entered(g, m, i, stack, item).0;
    earley_complete::lemma_entered_more(g, m, i, stack, item);
    if item.origin == i {
        lemma_begun_stays(g, m, n, i, g.rules[item.rule as int].origin);
    }
    lemma_sprung_stays(g, m, n, hist, i);
}

/// What a node that is got makes of a forest.
proof fn lemma_got_sprung(
    g: earley_chart::Context,
    m: earley_chart::ChartModel,
    n: earley_chart::ChartModel,
    hist: Seq<Seq<Item>>,
    i: int,
    key: NodeKey,
    start: usize,
)
    requires
        is_sprung(g, m, hist, i),
        earley_complete::more_in(m, n, i),
        n == (earley_chart::ChartModel { forest: n.forest, ..m }),
        ({
            let h = earley_forest::got(m.forest, key, start, i as usize).0;
            &&& n.forest.nodes.len() == h.nodes.len()
            &&& forall|x: int|
                0 <= x < h.nodes.len() ==> earley_forest::labelled(
                    #[trigger] n.forest.nodes[x],
                    h.nodes[x].key,
                    h.nodes[x].start,
                    h.nodes[x].end,
                )
        }),
        0 <= i <= usize::MAX,
        start == i ==> match key {
            NodeKey::Sym(s) => has_begun(g, m, i, s),
            NodeKey::Inter(_r, _d) => true,
        },
    ensures
        is_sprung(g, n, hist, i),
{
    let h = earley_forest::got(m.forest, key, start, i as usize).0;
    earley_forest::lemma_find_node(m.forest.nodes, key, start, i as usize, 0);
    assert forall|x: int| 0 <= x < m.forest.nodes.len() implies earley_forest::labelled(
        #[trigger] n.forest.nodes[x],
        m.forest.nodes[x].key,
        m.forest.nodes[x].start,
        m.forest.nodes[x].end,
    ) by {
        assert(h.nodes[x] == m.forest.nodes[x]);
    }
    assert forall|x: int| m.forest.nodes.len() <= x < n.forest.nodes.len() implies node_sprung(
        g,
        n,
        hist,
        i,
        #[trigger] n.forest.nodes[x],
    ) by {
        assert(earley_forest::labelled(h.nodes[x], key, start, i as usize));
        if start == i {
            if let NodeKey::Sym(s) = key {
                lemma_begun_stays(g, m, n, i, s);
            }
        }
    }
    lemma_sprung_stays(g, m, n, hist, i);
}

proof fn lemma_advanced_sprung(
    g: earley_chart::Context,
    m: earley_chart::ChartModel,
    hist: Seq<Seq<Item>>,
    i: usize,
    stack: Seq<Item>,
    o: Item,
    right: ForestRef,
)
    requires
        is_sprung(g, m, hist, i as int),
        item_sprung(g, m, i as int, o),
        i < m.columns.len(),
        o.dot < g.rules[o.rule as int].expansion.len() <= usize::MAX,
    ensures
        is_sprung(g, earley_chart::advanced(g, m, i, stack, o, right).0, hist, i as int),
{
    let (f, item) = earley_chart::moved(g, m.forest, o, right, i);
    let m1 = earley_chart::ChartModel { forest: f, ..m };
    let key = earley_chart::key_at(g, o.rule, o.dot + 1);
    earley_complete::lemma_moved_label(g, m.forest, o, right, i);
    earley_complete::lemma_forest_more(m, f, stack, i as int);
    earley_forest::lemma_find_node(m.forest.nodes, key, o.origin, i, 0);
    lemma_got_sprung(g, m, m1, hist, i as int, key, o.origin);
    lemma_entered_sprung(g, m1, hist, i as int, stack, item);
}

proof fn lemma_all_advanced_sprung(
    g: earley_chart::Context,
    m: earley_chart::ChartModel,
    hist: Seq<Seq<Item>>,
    i: usize,
    stack: Seq<Item>,
    items: Seq<Item>,
    right: ForestRef,
)
    requires
        is_sprung(g, m, hist, i as int),
        i < m.columns.len(),
        earley_complete::items_labelled(g, m.forest, m.columns[i as int], i),
        forall|k: int|
            0 <= k < items.len() ==> item_sprung(g, m, i as int, #[trigger] items[k]) && items[k].dot
                < g.rules[items[k].rule as int].expansion.len() <= usize::MAX,
    ensures
        is_sprung(
            g,
            earley_chart::all_advanced(g, m, i, stack, items, right).0,
            hist,
            i as int,
        ),
    decreases items.len(),
{
    if items.len() > 0 {
        let front = items.drop_last();
        let o = items.last();
        assert forall|k: int| 0 <= k < front.len() implies item_sprung(
            g,
            m,
            i as int,
            #[trigger] front[k],
        ) && front[k].dot < g.rules[front[k].rule as int].expansion.len() <= usize::MAX by {
            assert(item_sprung(g, m, i as int, items[k]));
        }
        lemma_all_advanced_sprung(g, m, hist, i, stack, front, right);
        earley_complete::lemma_all_advanced_more(g, m, i, stack, front, right);
        let (m1, s1) = earley_chart::all_advanced(g, m, i, stack, front, right);
        assert(item_sprung(g, m, i as int, items[items.len() - 1]));
        if o.origin == i {
            lemma_begun_stays(g, m, m1, i as int, g.rules[o.rule as int].origin);
        }
        lemma_advanced_sprung(g, m1, hist, i, s1, o, right);
    }
}

/// What prediction adds: the rules of the symbol.
proof fn lemma_predicted_new(
    g: earley_chart::Context,
    m: earley_chart::ChartModel,
    i: usize,
    stack: Seq<Item>,
    s: SymbolId,
    k: nat,
)
    requires
        i < m.columns.len(),
        k <= g.rules.len() <= usize::MAX,
    ensures
        ({
            let n = earley_chart::predicted(g, m, i, stack, s, k).0;
            &&& n.forest == m.forest
            &&& n.columns.len() == m.columns.len()
            &&& forall|q: int|
                m.columns[i as int].len() <= q < n.columns[i as int].len() ==> g.rules[(
                #[trigger] n.columns[i as int][q]).rule as int].origin == s
            &&& forall|q: int|
                m.scan.len() <= q < n.scan.len() ==> g.rules[(
                #[trigger] n.scan[q]).rule as int].origin == s
        }),
    decreases k,
{
    if k > 0 {
        lemma_predicted_new(g, m, i, stack, s, (k - 1) as nat);
    }
}

proof fn lemma_predicted_sprung(
    g: earley_chart::Context,
    m: earley_chart::ChartModel,
    hist: Seq<Seq<Item>>,
    i: usize,
    stack: Seq<Item>,
    s: SymbolId,
)
    requires
        is_sprung(g, m, hist, i as int),
        i < m.columns.len(),
        g.rules.len() <= usize::MAX,
        earley_complete::items_labelled(g, m.forest, m.columns[i as int], i),
    ensures
        is_sprung(
            g,
            earley_chart::predicted(g, m, i, stack, s, g.rules.len()).0,
            hist,
            i as int,
        ),
{
    let n = earley_chart::predicted(g, m, i, stack, s, g.rules.len()).0;
    earley_complete::lemma_predicted_more(g, m, i, stack, s, g.rules.len());
    lemma_predicted_new(g, m, i, stack, s, g.rules.len());
    assert(has_begun(g, n, i as int, s));
    lemma_sprung_stays(g, m, n, hist, i as int);
}

/// What completion makes of a column.
#[verifier::rlimit(30)]
proof fn lemma_completed_sprung(
    g: earley_chart::Context,
    gr: earley_shape::Ground,
    l: reading::Reading,
    m: earley_chart::ChartModel,
    hist: Seq<Seq<Item>>,
    i: usize,
    stack: Seq<Item>,
    item: Item,
    id: usize,
    start: SymbolId,
)
    requires
        earley_sound::context_true(g),
        gr.loose || reading::is_firm(l),
        gr.start == start,
        is_sprung(g, m, hist, i as int),
        m.columns.len() == i + 1,
        earley_sound::chart_derived(g, l, m, i as int),
        earley_complete::links_true(g, m, start, i as int),
        earley_complete::items_labelled(g, m.forest, m.columns[i as int], i),
        earley_places::chart_shape(g, gr, m, i as int),
        item.origin <= i,
        earley_recognizer::completed(g, m, i, stack, item, id, start).0.arena.len() <= usize::MAX,
    ensures
        is_sprung(
            g,
            earley_recognizer::completed(g, m, i, stack, item, id, start).0,
            hist,
            i as int,
        ),
{
    let n = earley_recognizer::completed(g, m, i, stack, item, id, start).0;
    let a = g.rules[item.rule as int].origin;
    let j = item.origin as int;
    earley_sound::lemma_completed_arena(g, m, i, stack, item, id, start);
    let m1 = if item.origin != i {
        earley_leo::leo_created(g, m, a, item.origin, start)
    } else {
        m
    };
    if item.origin != i {
        earley_places::lemma_leo_keeps(g, m, a, item.origin, start);
        earley_sound::lemma_leo_derived(g, l, m, i as int, a, item.origin, start);
        earley_complete::lemma_leo_true(g, l, m, i as int, a, item.origin, start);
        earley_places::lemma_links_shape(
            g,
            m.arena,
            m1.arena,
            earley_shape::with_cols(gr, m.columns),
            m.forest,
        );
        lemma_sprung_stays(g, m, m1, hist, i as int);
    }
    assert(is_sprung(g, m1, hist, i as int));
    let shortcut = if item.origin != i {
        earley_chart::find_trans(m1.trans[j], a, 0)
    } else {
        None
    };
    match shortcut {
        Some(t) => {
            earley_leo::lemma_find_trans(m1.trans[j], a, 0);
            assert(earley_chart::row_ok(m1, j, m1.trans[j]));
            let k = choose|k: int| 0 <= k < m1.trans[j].len() && #[trigger] m1.trans[j][k] == (a, t);
            assert(m1.trans[j][k].1 < m1.arena.len());
            earley_places::lemma_top_before(g, gr, m1, start, i as int, t as int);
            let top = m1.arena[t as int].top;
            let key = earley_chart::key_at(g, top.rule, top.dot as int);
            let (f, node) = earley_forest::got(m1.forest, key, top.origin, i);
            earley_complete::lemma_got_label(m1.forest, key, top.origin, i);
            let h = earley_forest::path_added(f, node, (t, ForestRef::Node(id), i));
            earley_complete::lemma_updated_labels(f, h);
            earley_complete::lemma_labels_trans(m1.forest, f, h);
            let m2 = earley_chart::ChartModel { forest: h, ..m1 };
            earley_complete::lemma_forest_more(m1, h, stack, i as int);
            lemma_got_sprung(g, m1, m2, hist, i as int, key, top.origin);
            lemma_entered_sprung(
                g,
                m2,
                hist,
                i as int,
                stack,
                Item { node: ForestRef::Node(node as usize), ..top },
            );
        },
        None => {
            let column = m1.columns[j];
            let items = earley_chart::waiting(g, column, a);
            earley_chart::lemma_waiting(g, column, a);
            assert forall|k: int| 0 <= k < items.len() implies item_sprung(
                g,
                m1,
                i as int,
                #[trigger] items[k],
            ) && items[k].dot < g.rules[items[k].rule as int].expansion.len() <= usize::MAX by {
                assert(column.contains(items[k]));
                let q = choose|q: int| 0 <= q < column.len() && column[q] == items[k];
                assert(earley_sound::items_derived(g, l, j, m1.columns[j]));
                assert(earley_sound::item_derived(g, l, j, m1.columns[j][q]));
                assert(earley_chart::expected(g, items[k]) == Some(a));
                assert(g.rules[items[k].rule as int].origin.ix() >= g.nt);
                if j == i {
                    assert(item_sprung(g, m1, i as int, m1.columns[i as int][q]));
                }
            }
            lemma_all_advanced_sprung(g, m1, hist, i, stack, items, ForestRef::Node(id));
        },
    }
}

/// Processing an item keeps all where its rules begin.
#[verifier::rlimit(30)]
proof fn lemma_step_sprung(
    g: earley_chart::Context,
    gr: earley_shape::Ground,
    l: reading::Reading,
    w: earley_recognizer::Work,
    hist: Seq<Seq<Item>>,
    i: usize,
    start: SymbolId,
)
    requires
        earley_sound::context_true(g),
        earley_shape::flags_closed(g),
        earley_fill::flags_true(g),
        gr.loose || reading::is_firm(l),
        gr.start == start,
        earley_sound::work_derived(g, l, w, i as int),
        earley_exact::work_full(g, w, i, start),
        earley_places::work_shape(g, gr, w, i as int),
        is_sprung(g, w.chart, hist, i as int),
        w.stack.len() > 0,
        earley_recognizer::work_step(g, w, i, start).chart.arena.len() <= usize::MAX,
        earley_shape::within_limits(earley_recognizer::work_step(g, w, i, start).chart.forest),
    ensures
        is_sprung(g, earley_recognizer::work_step(g, w, i, start).chart, hist, i as int),
{
    let item = w.stack.last();
    let rest = w.stack.drop_last();
    let v = earley_recognizer::work_step(g, w, i, start);
    let column = w.chart.columns[i as int];
    assert(column.contains(w.stack[w.stack.len() - 1]));
    let at = choose|q: int| 0 <= q < column.len() && column[q] == item;
    assert(earley_sound::items_derived(g, l, i as int, column));
    assert(earley_sound::item_derived(g, l, i as int, column[at]));
    assert(item_sprung(g, w.chart, i as int, column[at]));
    assert(earley_places::are_placed(g, gr, w.chart.forest, i as int, column));
    assert(earley_places::is_placed(g, gr, w.chart.forest, i as int, column[at]));
    match earley_chart::expected(g, item) {
        None => {
            let a = g.rules[item.rule as int].origin;
            let (m1, id) = earley_recognizer::node_for(g, w.chart, i, item);
            earley_places::lemma_completed_sizes(g, m1, i, rest, item, id, start);
            earley_shape::lemma_sizes_limits(m1.forest, v.chart.forest);
            earley_places::lemma_node_for_shape(g, gr, w.chart, i, item);
            earley_sound::lemma_node_for_derived(g, l, w.chart, i, item);
            earley_exact::lemma_node_for_more(g, w.chart, i, rest, item);
            earley_exact::lemma_links_stay(g, w.chart, m1, start, i as int);
            if !(item.node is Node) {
                earley_forest::lemma_find_node(
                    w.chart.forest.nodes,
                    NodeKey::Sym(a),
                    item.origin,
                    i,
                    0,
                );
                lemma_got_sprung(
                    g,
                    w.chart,
                    m1,
                    hist,
                    i as int,
                    NodeKey::Sym(a),
                    item.origin,
                );
            }
            lemma_completed_sprung(g, gr, l, m1, hist, i, rest, item, id, start);
        },
        Some(s) => {
            assert(!earley_chart::wants_terminal(g, column[at]));
            let (m1, s1) = earley_chart::predicted(g, w.chart, i, rest, s, g.rules.len());
            lemma_predicted_sprung(g, w.chart, hist, i, rest, s);
            earley_complete::lemma_predicted_more(g, w.chart, i, rest, s, g.rules.len());
            if let Some(h) = w.held[s.ix() as int] {
                assert(g.rules[item.rule as int].origin.ix() >= g.nt);
                if item.origin == i {
                    lemma_begun_stays(
                        g,
                        w.chart,
                        m1,
                        i as int,
                        g.rules[item.rule as int].origin,
                    );
                }
                lemma_advanced_sprung(g, m1, hist, i, s1, item, ForestRef::Node(h));
            }
        },
    }
}

proof fn lemma_run_sprung(
    g: earley_chart::Context,
    gr: earley_shape::Ground,
    l: reading::Reading,
    w: earley_recognizer::Work,
    hist: Seq<Seq<Item>>,
    i: usize,
    start: SymbolId,
    k: nat,
)
    requires
        earley_sound::context_true(g),
        earley_shape::flags_closed(g),
        earley_fill::flags_true(g),
        gr.loose || reading::is_firm(l),
        gr.start == start,
        earley_sound::work_derived(g, l, w, i as int),
        earley_exact::work_full(g, w, i, start),
        earley_places::work_shape(g, gr, w, i as int),
        is_sprung(g, w.chart, hist, i as int),
        forall|j: nat|
            j < k ==> (#[trigger] earley_recognizer::work_run(g, w, i, start, j)).stack.len() > 0,
        earley_recognizer::work_run(g, w, i, start, k).chart.arena.len() <= usize::MAX,
        earley_shape::within_limits(
            earley_recognizer::work_run(g, w, i, start, k).chart.forest,
        ),
    ensures
        is_sprung(g, earley_recognizer::work_run(g, w, i, start, k).chart, hist, i as int),
    decreases k,
{
    if k > 0 {
        let j = (k - 1) as nat;
        let u = earley_recognizer::work_run(g, w, i, start, j);
        let v = earley_recognizer::work_run(g, w, i, start, k);
        earley_exact::lemma_run_links(g, w, i, start, j, k);
        earley_places::lemma_run_sizes(g, w, i, start, j, k);
        earley_shape::lemma_sizes_limits(u.chart.forest, v.chart.forest);
        lemma_run_sprung(g, gr, l, w, hist, i, start, j);
        earley_places::lemma_run_shape(g, gr, l, w, i, start, j);
        earley_exact::lemma_run_full(g, l, w, i, start, j);
        assert(u.stack.len() > 0);
        lemma_step_sprung(g, gr, l, u, hist, i, start);
    }
}

/// Closing a column keeps all where its rules begin.
pub proof fn lemma_closed_at_sprung(
    g: earley_chart::Context,
    gr: earley_shape::Ground,
    l: reading::Reading,
    m: earley_chart::ChartModel,
    hist: Seq<Seq<Item>>,
    i: usize,
    start: SymbolId,
    n: earley_chart::ChartModel,
)
    requires
        earley_sound::context_true(g),
        earley_shape::flags_closed(g),
        earley_fill::flags_true(g),
        gr.loose || reading::is_firm(l),
        gr.start == start,
        earley_exact::can_close(g, l, m, i, start),
        earley_places::chart_shape(g, gr, m, i as int),
        is_sprung(g, m, hist, i as int),
        hist.len() == i,
        earley_recognizer::closed_at(g, m, i, start, n),
        earley_shape::within_limits(n.forest),
    ensures
        chart_sprung(g, n, hist.push(n.columns[i as int] + n.scan), i as int),
{
    let w = earley_recognizer::begun(g, m, i as int);
    let (k, v) = choose|k: nat, v: earley_recognizer::Work|
        #[trigger] earley_recognizer::work_reaches(g, w, i, start, v, k) && v.stack.len() == 0
            && v.chart == n && n.arena.len() <= usize::MAX;
    earley_exact::lemma_begun_full(g, l, m, i, start);
    assert(earley_places::are_placed(g, gr, m.forest, i as int, m.columns[i as int]));
    assert(earley_places::work_shape(g, gr, w, i as int));
    lemma_run_sprung(g, gr, l, w, hist, i, start, k);
    let last = n.columns[i as int] + n.scan;
    let all = hist.push(last);
    assert forall|x: int| 0 <= x < n.forest.nodes.len() implies (
    #[trigger] n.forest.nodes[x]).end <= i && match n.forest.nodes[x].key {
        NodeKey::Sym(s) => n.forest.nodes[x].start == n.forest.nodes[x].end
            ==> earley_exact::begins(
            g,
            all[n.forest.nodes[x].end as int],
            s,
            n.forest.nodes[x].end as int,
        ),
        NodeKey::Inter(_r, _d) => true,
    } by {
        let o = n.forest.nodes[x];
        assert(node_sprung(g, n, hist, i as int, n.forest.nodes[x]));
        if let NodeKey::Sym(s) = o.key {
            if o.start == o.end {
                if o.end < i {
                    assert(all[o.end as int] == hist[o.end as int]);
                } else {
                    assert forall|r: int|
                        0 <= r < g.rules.len() && (#[trigger] g.rules[r]).origin == s implies
                        earley_chart::has_item(last, earley_chart::fresh(r, i)) by {
                        earley_exact::lemma_present_all(
                            n,
                            i as int,
                            earley_chart::fresh(r, i),
                        );
                    }
                }
            }
        }
    }
}

/// The nodes that scanning makes span something.
proof fn lemma_scanned_nodes(
    g: earley_chart::Context,
    f: earley_forest::ForestModel,
    items: Seq<Item>,
    t: SymbolId,
    right: ForestRef,
    end: usize,
    k: nat,
)
    requires
        k <= items.len(),
        forall|q: int| 0 <= q < items.len() ==> (#[trigger] items[q]).origin < end,
    ensures
        ({
            let s = earley_recognizer::scanned(g, f, items, t, right, end, k);
            &&& f.nodes.len() <= s.forest.nodes.len()
            &&& forall|x: int|
                0 <= x < f.nodes.len() ==> earley_forest::labelled(
                    #[trigger] s.forest.nodes[x],
                    f.nodes[x].key,
                    f.nodes[x].start,
                    f.nodes[x].end,
                )
            &&& forall|x: int|
                f.nodes.len() <= x < s.forest.nodes.len() ==> (
                #[trigger] s.forest.nodes[x]).start < s.forest.nodes[x].end
                    && s.forest.nodes[x].end == end
            &&& forall|q: int|
                0 <= q < s.column.len() ==> (#[trigger] s.column[q]).origin < end
            &&& forall|q: int| 0 <= q < s.scan.len() ==> (#[trigger] s.scan[q]).origin < end
        }),
    decreases k,
{
    if k > 0 {
        lemma_scanned_nodes(g, f, items, t, right, end, (k - 1) as nat);
        let s = earley_recognizer::scanned(g, f, items, t, right, end, (k - 1) as nat);
        let o = items[k - 1];
        if earley_chart::expected(g, o) == Some(t) {
            let key = earley_chart::key_at(g, o.rule, o.dot + 1);
            earley_forest::lemma_find_node(s.forest.nodes, key, o.origin, end, 0);
        }
    }
}

/// Where the rules of a symbol begin, after the next token.
pub proof fn lemma_next_sprung(
    g: earley_chart::Context,
    p: earley_chart::ChartModel,
    before: Seq<Seq<Item>>,
    i: usize,
    t: tree::TokenModel,
    n: earley_chart::ChartModel,
)
    requires
        i > 0,
        chart_sprung(g, p, before, i - 1),
        p.columns.len() == i,
        forall|q: int| 0 <= q < p.scan.len() ==> (#[trigger] p.scan[q]).origin < i,
        earley_recognizer::scan_step(g, p, t) == Some(n),
    ensures
        is_sprung(g, n, before, i as int),
{
    let f = earley_forest::token_added(p.forest, t);
    let right = ForestRef::Tok(p.forest.tokens.len() as usize);
    lemma_scanned_nodes(g, f, p.scan, t.type_id, right, i, p.scan.len());
    let s = earley_recognizer::scanned(g, f, p.scan, t.type_id, right, i, p.scan.len());
    assert(n.columns[i as int] == s.column);
    assert forall|x: int| 0 <= x < n.forest.nodes.len() implies node_sprung(
        g,
        n,
        before,
        i as int,
        #[trigger] n.forest.nodes[x],
    ) by {
        if x < p.forest.nodes.len() {
            assert(f.nodes[x] == p.forest.nodes[x]);
            let o = p.forest.nodes[x];
        } else {
            assert(n.forest.nodes[x].start < n.forest.nodes[x].end);
        }
    }
}

/// In the first column the rules of the start symbol begin.
pub proof fn lemma_started_sprung(g: earley_chart::Context, start: SymbolId)
    requires
        g.rules.len() <= usize::MAX,
    ensures
        is_sprung(g, earley_recognizer::started(g, start), Seq::empty(), 0),
{
    let b = earley_recognizer::blank_chart();
    lemma_predicted_sprung(g, b, Seq::empty(), 0, Seq::empty(), start);
}

} // verus!
