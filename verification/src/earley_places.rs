//! The shape of the chart: what its items refer to.

use vstd::prelude::*;
use crate::analysis;
use crate::earley_chart;
use crate::earley_complete;
use crate::earley_exact;
use crate::earley_fill;
use crate::earley_forest;
use crate::earley_forest::{ForestRef, Item, NodeKey, Packed, Trans};
use crate::earley_good;
use crate::earley_leo;
use crate::earley_recognizer;
use crate::earley_shape;
use crate::earley_sound;
use crate::reading;
use crate::symbols::SymbolId;
use crate::tree;

verus! {

// ---------------------------------------------------------------------------
// Items

/// Whether an item of column `c` refers to the node of what it has passed. An item
/// that has passed nothing may have been carried past what is ignored, where it
/// waits for a terminal or is the whole start symbol.
pub open spec fn is_placed(
    g: earley_chart::Context,
    gr: earley_shape::Ground,
    f: earley_forest::ForestModel,
    c: int,
    x: Item,
) -> bool {
    &&& x.rule < g.rules.len()
    &&& x.dot <= g.rules[x.rule as int].expansion.len()
    &&& x.origin <= c <= usize::MAX
    &&& if x.dot == 0 {
        &&& x.node is Nothing
        &&& x.origin < c ==> gr.loose && (gr.gap)(x.origin as int, c) && earley_exact::stands(
            g,
            gr.start,
            x,
        )
    } else {
        earley_shape::is_at(
            f,
            x.node,
            earley_chart::key_at(g, x.rule, x.dot as int),
            x.origin,
            c as usize,
        )
    }
}

/// Whether each item of column `c` refers to the node of what it has passed.
pub open spec fn are_placed(
    g: earley_chart::Context,
    gr: earley_shape::Ground,
    f: earley_forest::ForestModel,
    c: int,
    s: Seq<Item>,
) -> bool {
    forall|k: int| 0 <= k < s.len() ==> is_placed(g, gr, f, c, #[trigger] s[k])
}

/// Whether no item waits for a terminal.
pub open spec fn none_waits(g: earley_chart::Context, s: Seq<Item>) -> bool {
    forall|k: int| 0 <= k < s.len() ==> !earley_chart::wants_terminal(g, #[trigger] s[k])
}

/// Items stay placed as the forest grows.
pub proof fn lemma_placed_grown(
    g: earley_chart::Context,
    gr: earley_shape::Ground,
    f: earley_forest::ForestModel,
    h: earley_forest::ForestModel,
    c: int,
    s: Seq<Item>,
)
    requires
        earley_forest::extends(f, h),
        are_placed(g, gr, f, c, s),
    ensures
        are_placed(g, gr, h, c, s),
{
    assert forall|k: int| 0 <= k < s.len() implies is_placed(g, gr, h, c, #[trigger] s[k]) by {
        let x = s[k];
        assert(is_placed(g, gr, f, c, x));
        if x.dot > 0 {
            earley_shape::lemma_at_grown(
                f,
                h,
                x.node,
                earley_chart::key_at(g, x.rule, x.dot as int),
                x.origin,
                c as usize,
            );
        }
    }
}

/// Whether a forest is in shape, and every node of it can be built.
pub open spec fn is_sound(
    g: earley_chart::Context,
    arena: Seq<Trans>,
    gr: earley_shape::Ground,
    f: earley_forest::ForestModel,
) -> bool {
    &&& earley_shape::in_shape(g, arena, gr, f)
    &&& earley_good::all_good(f, earley_good::nothing_known())
}

/// Whether an item is in column `c`, by its rule, dot and origin.
pub open spec fn is_entered(cols: Seq<Seq<Item>>, c: int, x: Item) -> bool {
    0 <= c < cols.len() && earley_chart::has_item(
        cols[c],
        earley_shape::mark(x.rule, x.dot, x.origin),
    )
}

/// Whether the whole start symbol was carried on from columns before `i` only.
pub open spec fn carried_before(gr: earley_shape::Ground, i: int) -> bool {
    forall|c: int| #[trigger] gr.carried.contains(c) ==> c < i
}

/// Whether a chart is in shape; `i` is the current column.
pub open spec fn chart_shape(
    g: earley_chart::Context,
    gr: earley_shape::Ground,
    m: earley_chart::ChartModel,
    i: int,
) -> bool {
    &&& is_sound(g, m.arena, earley_shape::with_cols(gr, m.columns), m.forest)
    &&& 0 <= i < m.columns.len()
    &&& i <= usize::MAX
    &&& carried_before(gr, i)
    &&& forall|c: int|
        0 <= c < m.columns.len() ==> are_placed(g, gr, m.forest, c, #[trigger] m.columns[c])
            && none_waits(g, m.columns[c])
    &&& are_placed(g, gr, m.forest, i, m.scan)
}

/// Whether work on a column is in shape.
pub open spec fn work_shape(
    g: earley_chart::Context,
    gr: earley_shape::Ground,
    w: earley_recognizer::Work,
    i: int,
) -> bool {
    &&& chart_shape(g, gr, w.chart, i)
    &&& are_placed(g, gr, w.chart.forest, i, w.stack)
    &&& w.held.len() == g.n
    &&& forall|s: SymbolId|
        s.ix() < g.n ==> (#[trigger] w.held[s.ix() as int] matches Some(h) ==> earley_shape::is_at(
            w.chart.forest,
            ForestRef::Node(h),
            NodeKey::Sym(s),
            i as usize,
            i as usize,
        ))
}

/// An item moved over a symbol.
pub proof fn lemma_moved_shape(
    g: earley_chart::Context,
    arena: Seq<Trans>,
    gr: earley_shape::Ground,
    f: earley_forest::ForestModel,
    o: Item,
    right: ForestRef,
    c: int,
    end: usize,
)
    requires
        earley_chart::context_ok(g),
        earley_shape::flags_closed(g),
        is_sound(g, arena, gr, f),
        is_placed(g, gr, f, c, o),
        o.dot < g.rules[o.rule as int].expansion.len(),
        match right {
            ForestRef::Tok(t) => {
                &&& c < end
                &&& if gr.loose {
                    (gr.token)(
                        if o.dot == 0 {
                            o.origin as int
                        } else {
                            c
                        },
                        f.tokens[t as int],
                        end as int,
                    )
                } else {
                    t == c && c + 1 == end
                }
                &&& t < f.tokens.len()
                &&& f.tokens[t as int].type_id == g.rules[o.rule as int].expansion[o.dot as int]
                &&& g.rules[o.rule as int].expansion[o.dot as int].ix() < g.nt
            },
            _ => {
                &&& c <= end
                &&& !earley_chart::wants_terminal(g, o)
                &&& earley_shape::is_at(
                    f,
                    right,
                    NodeKey::Sym(g.rules[o.rule as int].expansion[o.dot as int]),
                    c as usize,
                    end,
                )
                &&& c < end ==> is_entered(gr.cols, c, o)
            },
        },
        earley_shape::within_limits(earley_chart::moved(g, f, o, right, end).0),
    ensures
        ({
            let (h, x) = earley_chart::moved(g, f, o, right, end);
            &&& is_sound(g, arena, gr, h)
            &&& earley_shape::grown(f, h)
            &&& is_placed(g, gr, h, end as int, x)
        }),
{
    let key = earley_chart::key_at(g, o.rule, o.dot + 1);
    let p = earley_chart::moved_family(o, right);
    let n = earley_forest::bare_node(key, o.origin, end);
    assert(g.rules[o.rule as int].expansion.len() <= usize::MAX);
    if o.dot > 0 {
        assert(earley_shape::mid_of(f, n, p) == c);
    }
    if let ForestRef::Tok(t) = right {
        if gr.loose {
            assert(earley_shape::token_to(
                g,
                gr,
                n,
                earley_shape::mid_of(f, n, p) as int,
                f.tokens[t as int],
                end as int,
            ));
        }
    }
    assert(earley_shape::is_family(g, gr, f, n, p));
    earley_shape::lemma_entry_shape(
        g,
        arena,
        gr,
        f,
        key,
        o.origin,
        end,
        p,
        g.rules[o.rule as int].order,
    );
    earley_good::lemma_entry_good(
        f,
        earley_chart::moved(g, f, o, right, end).0,
        earley_good::nothing_known(),
        o.node,
        right,
    );
}

proof fn lemma_chart_grown(
    g: earley_chart::Context,
    gr: earley_shape::Ground,
    m: earley_chart::ChartModel,
    h: earley_forest::ForestModel,
    i: int,
)
    requires
        chart_shape(g, gr, m, i),
        is_sound(g, m.arena, earley_shape::with_cols(gr, m.columns), h),
        earley_shape::grown(m.forest, h),
    ensures
        chart_shape(g, gr, earley_chart::ChartModel { forest: h, ..m }, i),
{
    let n = earley_chart::ChartModel { forest: h, ..m };
    assert forall|c: int| 0 <= c < n.columns.len() implies are_placed(
        g,
        gr,
        n.forest,
        c,
        #[trigger] n.columns[c],
    ) by {
        assert(are_placed(g, gr, m.forest, c, m.columns[c]));
        lemma_placed_grown(g, gr, m.forest, h, c, m.columns[c]);
    }
    lemma_placed_grown(g, gr, m.forest, h, i, m.scan);
}

proof fn lemma_entered_shape(
    g: earley_chart::Context,
    gr: earley_shape::Ground,
    m: earley_chart::ChartModel,
    i: int,
    stack: Seq<Item>,
    item: Item,
)
    requires
        chart_shape(g, gr, m, i),
        are_placed(g, gr, m.forest, i, stack),
        is_placed(g, gr, m.forest, i, item),
    ensures
        ({
            let (n, s) = earley_chart::entered(g, m, i, stack, item);
            &&& chart_shape(g, gr, n, i)
            &&& are_placed(g, gr, n.forest, i, s)
            &&& n.forest == m.forest
            &&& n.arena == m.arena
            &&& n.columns.len() == m.columns.len()
            &&& forall|c: int|
                0 <= c < m.columns.len() && c != i ==> #[trigger] n.columns[c] == m.columns[c]
        }),
{
    let (n, s) = earley_chart::entered(g, m, i, stack, item);
    earley_shape::lemma_cols_shape(
        g,
        m.arena,
        earley_shape::with_cols(gr, m.columns),
        earley_shape::with_cols(gr, n.columns),
        m.forest,
    );
    assert forall|c: int| 0 <= c < n.columns.len() implies are_placed(
        g,
        gr,
        n.forest,
        c,
        #[trigger] n.columns[c],
    ) by {
        assert(are_placed(g, gr, m.forest, c, m.columns[c]));
    }
}

pub proof fn lemma_advanced_shape(
    g: earley_chart::Context,
    gr: earley_shape::Ground,
    m: earley_chart::ChartModel,
    i: usize,
    stack: Seq<Item>,
    o: Item,
    right: ForestRef,
    c: int,
)
    requires
        earley_chart::context_ok(g),
        earley_shape::flags_closed(g),
        chart_shape(g, gr, m, i as int),
        are_placed(g, gr, m.forest, i as int, stack),
        is_placed(g, gr, m.forest, c, o),
        o.dot < g.rules[o.rule as int].expansion.len(),
        !earley_chart::wants_terminal(g, o),
        c <= i,
        earley_shape::is_at(
            m.forest,
            right,
            NodeKey::Sym(g.rules[o.rule as int].expansion[o.dot as int]),
            c as usize,
            i,
        ),
        c < i ==> is_entered(m.columns, c, o),
        earley_shape::within_limits(earley_chart::advanced(g, m, i, stack, o, right).0.forest),
    ensures
        ({
            let (n, s) = earley_chart::advanced(g, m, i, stack, o, right);
            &&& chart_shape(g, gr, n, i as int)
            &&& are_placed(g, gr, n.forest, i as int, s)
            &&& earley_shape::grown(m.forest, n.forest)
            &&& n.arena == m.arena
            &&& n.columns.len() == m.columns.len()
            &&& forall|q: int|
                0 <= q < m.columns.len() && q != i ==> #[trigger] n.columns[q] == m.columns[q]
        }),
{
    let (f, item) = earley_chart::moved(g, m.forest, o, right, i);
    let mid = earley_chart::ChartModel { forest: f, ..m };
    lemma_moved_shape(g, m.arena, earley_shape::with_cols(gr, m.columns), m.forest, o, right, c, i);
    lemma_chart_grown(g, gr, m, f, i as int);
    lemma_placed_grown(g, gr, m.forest, f, i as int, stack);
    lemma_entered_shape(g, gr, mid, i as int, stack, item);
}

pub proof fn lemma_advanced_forest(
    g: earley_chart::Context,
    m: earley_chart::ChartModel,
    i: usize,
    stack: Seq<Item>,
    o: Item,
    right: ForestRef,
)
    ensures
        earley_chart::advanced(g, m, i, stack, o, right).0.forest == earley_chart::moved(
            g,
            m.forest,
            o,
            right,
            i,
        ).0,
{
}

pub proof fn lemma_waiting(
    g: earley_chart::Context,
    gr: earley_shape::Ground,
    column: Seq<Item>,
    s: SymbolId,
    f: earley_forest::ForestModel,
    c: int,
)
    requires
        are_placed(g, gr, f, c, column),
    ensures
        are_placed(g, gr, f, c, earley_chart::waiting(g, column, s)),
        forall|k: int|
            0 <= k < earley_chart::waiting(g, column, s).len() ==> earley_chart::expected(
                g,
                #[trigger] earley_chart::waiting(g, column, s)[k],
            ) == Some(s),
    decreases column.len(),
{
    if column.len() > 0 {
        assert(is_placed(g, gr, f, c, column[column.len() - 1]));
        assert forall|k: int| 0 <= k < column.drop_last().len() implies is_placed(
            g,
            gr,
            f,
            c,
            #[trigger] column.drop_last()[k],
        ) by {
            assert(is_placed(g, gr, f, c, column[k]));
        }
        lemma_waiting(g, gr, column.drop_last(), s, f, c);
    }
}

/// What moving items adds to, whatever they are.
proof fn lemma_all_advanced_grown(
    g: earley_chart::Context,
    m: earley_chart::ChartModel,
    i: usize,
    stack: Seq<Item>,
    items: Seq<Item>,
    right: ForestRef,
)
    requires
        earley_chart::context_ok(g),
    ensures
        earley_shape::sizes_le(
            m.forest,
            earley_chart::all_advanced(g, m, i, stack, items, right).0.forest,
        ),
    decreases items.len(),
{
    if items.len() > 0 {
        lemma_all_advanced_grown(g, m, i, stack, items.drop_last(), right);
        let (m1, s1) = earley_chart::all_advanced(g, m, i, stack, items.drop_last(), right);
        lemma_moved_sizes(g, m1.forest, items.last(), right, i);
    }
}

pub proof fn lemma_moved_sizes(
    g: earley_chart::Context,
    f: earley_forest::ForestModel,
    o: Item,
    right: ForestRef,
    end: usize,
)
    ensures
        earley_shape::sizes_le(f, earley_chart::moved(g, f, o, right, end).0),
{
    let key = earley_chart::key_at(g, o.rule, o.dot + 1);
    let (h, id) = earley_forest::got(f, key, o.origin, end);
    earley_shape::lemma_got_sizes(f, key, o.origin, end);
    earley_shape::lemma_family_sizes(h, id, earley_chart::moved_family(o, right), g.rules[o.rule as int].order);
}

pub proof fn lemma_all_advanced_shape(
    g: earley_chart::Context,
    gr: earley_shape::Ground,
    m: earley_chart::ChartModel,
    i: usize,
    stack: Seq<Item>,
    items: Seq<Item>,
    right: ForestRef,
    c: int,
    s: SymbolId,
)
    requires
        earley_chart::context_ok(g),
        earley_shape::flags_closed(g),
        chart_shape(g, gr, m, i as int),
        are_placed(g, gr, m.forest, i as int, stack),
        are_placed(g, gr, m.forest, c, items),
        forall|k: int|
            0 <= k < items.len() ==> earley_chart::expected(g, #[trigger] items[k]) == Some(s),
        s.ix() >= g.nt,
        c <= i,
        c < i ==> forall|k: int|
            0 <= k < items.len() ==> is_entered(m.columns, c, #[trigger] items[k]),
        earley_shape::is_at(m.forest, right, NodeKey::Sym(s), c as usize, i),
        earley_shape::within_limits(earley_chart::all_advanced(g, m, i, stack, items, right).0.forest),
    ensures
        ({
            let (n, t) = earley_chart::all_advanced(g, m, i, stack, items, right);
            &&& chart_shape(g, gr, n, i as int)
            &&& are_placed(g, gr, n.forest, i as int, t)
            &&& earley_shape::grown(m.forest, n.forest)
            &&& n.arena == m.arena
            &&& n.columns.len() == m.columns.len()
            &&& forall|q: int|
                0 <= q < m.columns.len() && q != i ==> #[trigger] n.columns[q] == m.columns[q]
        }),
    decreases items.len(),
{
    if items.len() == 0 {
        earley_shape::lemma_grown_self(m.forest);
    } else {
        let (m1, s1) = earley_chart::all_advanced(g, m, i, stack, items.drop_last(), right);
        let o = items.last();
        assert(is_placed(g, gr, m.forest, c, items[items.len() - 1]));
        assert(earley_chart::expected(g, items[items.len() - 1]) == Some(s));
        assert(c < i ==> is_entered(m.columns, c, items[items.len() - 1]));
        assert forall|k: int| 0 <= k < items.drop_last().len() implies is_placed(
            g,
            gr,
            m.forest,
            c,
            #[trigger] items.drop_last()[k],
        ) && earley_chart::expected(g, items.drop_last()[k]) == Some(s) && (c < i ==> is_entered(
            m.columns,
            c,
            items.drop_last()[k],
        )) by {
            assert(c < i ==> is_entered(m.columns, c, items[k]));
            assert(is_placed(g, gr, m.forest, c, items[k]));
            assert(earley_chart::expected(g, items[k]) == Some(s));
        }
        lemma_advanced_forest(g, m1, i, s1, o, right);
        lemma_moved_sizes(g, m1.forest, o, right, i);
        earley_shape::lemma_sizes_limits(
            m1.forest,
            earley_chart::all_advanced(g, m, i, stack, items, right).0.forest,
        );
        lemma_all_advanced_shape(g, gr, m, i, stack, items.drop_last(), right, c, s);
        earley_shape::lemma_at_grown(m.forest, m1.forest, right, NodeKey::Sym(s), c as usize, i);
        lemma_placed_grown(g, gr, m.forest, m1.forest, c, seq![o]);
        assert(is_placed(g, gr, m1.forest, c, seq![o][0]));
        lemma_advanced_shape(g, gr, m1, i, s1, o, right, c);
        earley_shape::lemma_grown_trans(
            m.forest,
            m1.forest,
            earley_chart::all_advanced(g, m, i, stack, items, right).0.forest,
        );
    }
}

pub proof fn lemma_predicted_shape(
    g: earley_chart::Context,
    gr: earley_shape::Ground,
    m: earley_chart::ChartModel,
    i: usize,
    stack: Seq<Item>,
    s: SymbolId,
    k: nat,
)
    requires
        earley_chart::context_ok(g),
        chart_shape(g, gr, m, i as int),
        are_placed(g, gr, m.forest, i as int, stack),
        k <= g.rules.len(),
    ensures
        ({
            let (n, t) = earley_chart::predicted(g, m, i, stack, s, k);
            &&& chart_shape(g, gr, n, i as int)
            &&& are_placed(g, gr, n.forest, i as int, t)
            &&& n.forest == m.forest
            &&& n.arena == m.arena
        }),
    decreases k,
{
    if k > 0 {
        lemma_predicted_shape(g, gr, m, i, stack, s, (k - 1) as nat);
        let (m1, s1) = earley_chart::predicted(g, m, i, stack, s, (k - 1) as nat);
        if g.rules[k - 1].origin == s {
            lemma_entered_shape(g, gr, m1, i as int, s1, earley_chart::fresh(k - 1, i));
        }
    }
}

// ---------------------------------------------------------------------------
// Sizes

proof fn lemma_node_for_sizes(
    g: earley_chart::Context,
    m: earley_chart::ChartModel,
    i: usize,
    item: Item,
)
    ensures
        earley_shape::sizes_le(m.forest, earley_recognizer::node_for(g, m, i, item).0.forest),
{
    let rule = g.rules[item.rule as int];
    let key = NodeKey::Sym(rule.origin);
    let (f, id) = earley_forest::got(m.forest, key, item.origin, i);
    earley_shape::lemma_got_sizes(m.forest, key, item.origin, i);
    earley_shape::lemma_family_sizes(
        f,
        id,
        Packed {
            rule: item.rule,
            left: ForestRef::Nothing,
            right: ForestRef::Nothing,
            right_pos: 0,
        },
        rule.order,
    );
}

/// Entering links keeps those that are there.
proof fn lemma_linked_keeps(
    m: earley_chart::ChartModel,
    made: Seq<(SymbolId, usize, Item)>,
    parent: Option<usize>,
    top: Item,
)
    ensures
        m.arena.len() <= earley_leo::linked(m, made, parent, top).arena.len(),
        forall|k: int|
            0 <= k < m.arena.len() ==> #[trigger] earley_leo::linked(m, made, parent, top).arena[k]
                == m.arena[k],
    decreases made.len(),
{
    if made.len() > 0 {
        let (rec, col, o) = made.last();
        let tid = m.arena.len() as usize;
        let n = earley_chart::ChartModel {
            arena: m.arena.push(Trans { recognized: rec, key_start: col, red: o, parent, top }),
            trans: m.trans.update(col as int, m.trans[col as int].push((rec, tid))),
            ..m
        };
        lemma_linked_keeps(n, made.drop_last(), Some(tid), top);
        assert forall|k: int| 0 <= k < m.arena.len() implies #[trigger] earley_leo::linked(
            m,
            made,
            parent,
            top,
        ).arena[k] == m.arena[k] by {
            assert(n.arena[k] == m.arena[k]);
        }
    }
}

pub proof fn lemma_leo_keeps(
    g: earley_chart::Context,
    m: earley_chart::ChartModel,
    rec: SymbolId,
    col: usize,
    start: SymbolId,
)
    ensures
        ({
            let n = earley_leo::leo_created(g, m, rec, col, start);
            &&& n.columns == m.columns
            &&& n.forest == m.forest
            &&& n.scan == m.scan
            &&& m.arena.len() <= n.arena.len()
            &&& forall|k: int| 0 <= k < m.arena.len() ==> #[trigger] n.arena[k] == m.arena[k]
        }),
{
    if earley_chart::find_trans(m.trans[col as int], rec, 0) is None {
        let c = earley_leo::followed(
            g,
            m,
            start,
            rec,
            col,
            Seq::empty(),
            Seq::empty(),
            None,
            earley_leo::chain_limit(),
        );
        if let Some(top) = c.top {
            earley_complete::lemma_linked_rest(m, c.made, c.parent, top);
            lemma_linked_keeps(m, c.made, c.parent, top);
        }
    }
}

pub proof fn lemma_completed_sizes(
    g: earley_chart::Context,
    m: earley_chart::ChartModel,
    i: usize,
    stack: Seq<Item>,
    item: Item,
    id: usize,
    start: SymbolId,
)
    requires
        earley_chart::context_ok(g),
    ensures
        earley_shape::sizes_le(
            m.forest,
            earley_recognizer::completed(g, m, i, stack, item, id, start).0.forest,
        ),
{
    let s = g.rules[item.rule as int].origin;
    let m1 = if item.origin != i {
        earley_leo::leo_created(g, m, s, item.origin, start)
    } else {
        m
    };
    lemma_leo_keeps(g, m, s, item.origin, start);
    let shortcut = if item.origin != i {
        earley_chart::find_trans(m1.trans[item.origin as int], s, 0)
    } else {
        None
    };
    match shortcut {
        Some(t) => {
            let top = m1.arena[t as int].top;
            let key = earley_chart::key_at(g, top.rule, top.dot as int);
            earley_shape::lemma_got_sizes(m1.forest, key, top.origin, i);
        },
        None => {
            lemma_all_advanced_grown(
                g,
                m1,
                i,
                stack,
                earley_chart::waiting(g, m1.columns[item.origin as int], s),
                ForestRef::Node(id),
            );
        },
    }
}

pub proof fn lemma_step_sizes(
    g: earley_chart::Context,
    w: earley_recognizer::Work,
    i: usize,
    start: SymbolId,
)
    requires
        earley_chart::context_ok(g),
    ensures
        earley_shape::sizes_le(
            w.chart.forest,
            earley_recognizer::work_step(g, w, i, start).chart.forest,
        ),
{
    let item = w.stack.last();
    let rest = w.stack.drop_last();
    match earley_chart::expected(g, item) {
        None => {
            let (m1, id) = earley_recognizer::node_for(g, w.chart, i, item);
            lemma_node_for_sizes(g, w.chart, i, item);
            lemma_completed_sizes(g, m1, i, rest, item, id, start);
        },
        Some(s) => {
            let (m1, s1) = earley_chart::predicted(g, w.chart, i, rest, s, g.rules.len());
            earley_sound::lemma_predicted_arena(g, w.chart, i, rest, s, g.rules.len());
            if let Some(h) = w.held[s.ix() as int] {
                lemma_advanced_forest(g, m1, i, s1, item, ForestRef::Node(h));
                lemma_moved_sizes(g, m1.forest, item, ForestRef::Node(h), i);
            }
        },
    }
}

pub proof fn lemma_run_sizes(
    g: earley_chart::Context,
    w: earley_recognizer::Work,
    i: usize,
    start: SymbolId,
    j: nat,
    k: nat,
)
    requires
        earley_chart::context_ok(g),
        j <= k,
    ensures
        earley_shape::sizes_le(
            earley_recognizer::work_run(g, w, i, start, j).chart.forest,
            earley_recognizer::work_run(g, w, i, start, k).chart.forest,
        ),
    decreases k,
{
    if j < k {
        lemma_run_sizes(g, w, i, start, j, (k - 1) as nat);
        lemma_step_sizes(
            g,
            earley_recognizer::work_run(g, w, i, start, (k - 1) as nat),
            i,
            start,
        );
    }
}

pub proof fn lemma_scanned_sizes(
    g: earley_chart::Context,
    f: earley_forest::ForestModel,
    items: Seq<Item>,
    t: SymbolId,
    right: ForestRef,
    end: usize,
    k: nat,
)
    ensures
        earley_shape::sizes_le(
            f,
            earley_recognizer::scanned(g, f, items, t, right, end, k).forest,
        ),
    decreases k,
{
    if k > 0 {
        lemma_scanned_sizes(g, f, items, t, right, end, (k - 1) as nat);
        let s = earley_recognizer::scanned(g, f, items, t, right, end, (k - 1) as nat);
        lemma_moved_sizes(g, s.forest, items[k - 1], right, end);
    }
}

// ---------------------------------------------------------------------------
// Columns

pub proof fn lemma_node_for_shape(
    g: earley_chart::Context,
    gr: earley_shape::Ground,
    m: earley_chart::ChartModel,
    i: usize,
    item: Item,
)
    requires
        earley_chart::context_ok(g),
        earley_shape::flags_closed(g),
        chart_shape(g, gr, m, i as int),
        is_placed(g, gr, m.forest, i as int, item),
        earley_chart::is_done(g, item),
        earley_shape::within_limits(earley_recognizer::node_for(g, m, i, item).0.forest),
    ensures
        ({
            let (n, id) = earley_recognizer::node_for(g, m, i, item);
            &&& chart_shape(g, gr, n, i as int)
            &&& earley_shape::grown(m.forest, n.forest)
            &&& n.arena == m.arena
            &&& n.columns == m.columns
            &&& earley_shape::is_at(
                n.forest,
                ForestRef::Node(id),
                NodeKey::Sym(g.rules[item.rule as int].origin),
                item.origin,
                i,
            )
        }),
{
    match item.node {
        ForestRef::Node(id) => {
            earley_shape::lemma_grown_self(m.forest);
        },
        _ => {
            let rule = g.rules[item.rule as int];
            let key = NodeKey::Sym(rule.origin);
            let p = Packed {
                rule: item.rule,
                left: ForestRef::Nothing,
                right: ForestRef::Nothing,
                right_pos: 0,
            };
            assert(earley_shape::is_family(
                g,
                earley_shape::with_cols(gr, m.columns),
                m.forest,
                earley_forest::bare_node(key, item.origin, i),
                p,
            ));
            earley_shape::lemma_entry_shape(
                g,
                m.arena,
                earley_shape::with_cols(gr, m.columns),
                m.forest,
                key,
                item.origin,
                i,
                p,
                rule.order,
            );
            let (f, id) = earley_forest::got(m.forest, key, item.origin, i);
            earley_good::lemma_entry_good(
                m.forest,
                earley_forest::family_added(f, id, p, rule.order),
                earley_good::nothing_known(),
                ForestRef::Nothing,
                ForestRef::Nothing,
            );
            lemma_chart_grown(
                g,
                gr,
                m,
                earley_forest::family_added(f, id, p, rule.order),
                i as int,
            );
        },
    }
}

/// More links keep the shape.
pub proof fn lemma_links_shape(
    g: earley_chart::Context,
    arena: Seq<Trans>,
    more: Seq<Trans>,
    gr: earley_shape::Ground,
    f: earley_forest::ForestModel,
)
    requires
        earley_shape::in_shape(g, arena, gr, f),
        arena.len() <= more.len(),
        forall|k: int| 0 <= k < arena.len() ==> #[trigger] more[k] == arena[k],
    ensures
        earley_shape::in_shape(g, more, gr, f),
{
    assert forall|i: int, k: int|
        0 <= i < f.nodes.len() && 0 <= k < f.nodes[i].paths.len() implies earley_shape::is_path(
        g,
        gr,
        more,
        f,
        f.nodes[i],
        #[trigger] f.nodes[i].paths[k],
    ) by {
        let p = f.nodes[i].paths[k];
        assert(earley_shape::is_path(g, gr, arena, f, f.nodes[i], p));
        assert(more[p.0 as int] == arena[p.0 as int]);
    }
}

pub proof fn lemma_leapt_shape(
    g: earley_chart::Context,
    gr: earley_shape::Ground,
    m: earley_chart::ChartModel,
    i: usize,
    stack: Seq<Item>,
    t: usize,
    id: usize,
)
    requires
        earley_chart::context_ok(g),
        earley_shape::flags_closed(g),
        chart_shape(g, gr, m, i as int),
        are_placed(g, gr, m.forest, i as int, stack),
        t < m.arena.len(),
        m.arena[t as int].key_start < i,
        m.arena[t as int].top.rule < g.rules.len(),
        m.arena[t as int].top.origin <= m.arena[t as int].key_start,
        earley_shape::spans(
            g,
            gr,
            g.rules[m.arena[t as int].top.rule as int].origin,
            m.arena[t as int].top.origin,
        ),
        m.arena[t as int].top.dot == g.rules[m.arena[t as int].top.rule as int].expansion.len(),
        m.arena[t as int].top.dot > 0,
        earley_shape::is_at(
            m.forest,
            ForestRef::Node(id),
            NodeKey::Sym(m.arena[t as int].recognized),
            m.arena[t as int].key_start,
            i,
        ),
        earley_shape::within_limits(
            earley_recognizer::leapt(g, m, i, stack, t, id).0.forest,
        ),
    ensures
        ({
            let (n, s) = earley_recognizer::leapt(g, m, i, stack, t, id);
            &&& chart_shape(g, gr, n, i as int)
            &&& are_placed(g, gr, n.forest, i as int, s)
            &&& earley_shape::grown(m.forest, n.forest)
            &&& n.arena == m.arena
        }),
{
    let top = m.arena[t as int].top;
    let key = earley_chart::key_at(g, top.rule, top.dot as int);
    let path = (t, ForestRef::Node(id), i);
    let (f, top_node) = earley_forest::got(m.forest, key, top.origin, i);
    let h = earley_forest::path_added(f, top_node, path);
    earley_shape::lemma_got_shape(
        g,
        m.arena,
        earley_shape::with_cols(gr, m.columns),
        m.forest,
        key,
        top.origin,
        i,
    );
    earley_shape::lemma_path_grown(
        g,
        gr,
        m.arena,
        m.forest,
        f,
        earley_forest::bare_node(key, top.origin, i),
        f.nodes[top_node],
        path,
    );
    earley_shape::lemma_path_shape(g, m.arena, earley_shape::with_cols(gr, m.columns), f, top_node, path);
    earley_shape::lemma_grown_trans(m.forest, f, h);
    let k = earley_good::nothing_known();
    assert(earley_good::all_good(h, k)) by {
        assert forall|x: int| 0 <= x < m.forest.nodes.len() implies #[trigger] earley_good::is_good(
            h,
            k,
            x,
        ) by {
            assert(earley_good::is_good(m.forest, k, x));
            earley_good::lemma_is_good_grown(m.forest, h, k, x);
        }
        if top_node == m.forest.nodes.len() {
            assert(h.nodes[top_node].paths[f.nodes[top_node].paths.len() as int] == path);
            earley_good::lemma_by_path(h, k, top_node, f.nodes[top_node].paths.len() as int);
        }
    }
    lemma_chart_grown(g, gr, m, h, i as int);
    lemma_placed_grown(g, gr, m.forest, h, i as int, stack);
    let item = Item { node: ForestRef::Node(top_node as usize), ..top };
    assert(h.nodes.len() <= usize::MAX);
    assert(is_placed(g, gr, h, i as int, item));
    lemma_entered_shape(
        g,
        gr,
        earley_chart::ChartModel { forest: h, ..m },
        i as int,
        stack,
        item,
    );
}

/// The only item that waits for the symbol of a link.
pub proof fn lemma_red_placed(
    g: earley_chart::Context,
    gr: earley_shape::Ground,
    m: earley_chart::ChartModel,
    start: SymbolId,
    i: int,
    t: int,
)
    requires
        earley_complete::links_true(g, m, start, i),
        forall|c: int|
            0 <= c < m.columns.len() ==> are_placed(g, gr, m.forest, c, #[trigger] m.columns[c]),
        0 <= t < m.arena.len(),
    ensures
        is_placed(g, gr, m.forest, m.arena[t].key_start as int, m.arena[t].red),
        earley_chart::expected(g, m.arena[t].red) == Some(m.arena[t].recognized),
{
    let x = m.arena[t];
    assert(earley_complete::link_true(g, m, start, i, t));
    let column = m.columns[x.key_start as int];
    assert(are_placed(g, gr, m.forest, x.key_start as int, column));
    lemma_waiting(g, gr, column, x.recognized, m.forest, x.key_start as int);
    assert(earley_chart::waiting(g, column, x.recognized)[0] == x.red);
}

/// The item at the top of a chain is complete, and begins no later than the
/// chain.
pub proof fn lemma_top_before(
    g: earley_chart::Context,
    gr: earley_shape::Ground,
    m: earley_chart::ChartModel,
    start: SymbolId,
    i: int,
    t: int,
)
    requires
        earley_chart::context_ok(g),
        earley_complete::links_true(g, m, start, i),
        forall|c: int|
            0 <= c < m.columns.len() ==> are_placed(g, gr, m.forest, c, #[trigger] m.columns[c]),
        0 <= t < m.arena.len(),
    ensures
        ({
            let top = m.arena[t].top;
            &&& top.rule < g.rules.len()
            &&& top.dot == g.rules[top.rule as int].expansion.len()
            &&& top.dot > 0
            &&& top.origin <= m.arena[t].key_start
        }),
    decreases t,
{
    let x = m.arena[t];
    lemma_red_placed(g, gr, m, start, i, t);
    assert(earley_complete::link_true(g, m, start, i, t));
    assert(g.rules[x.red.rule as int].expansion.len() <= usize::MAX);
    if let Some(p) = x.parent {
        lemma_top_before(g, gr, m, start, i, p as int);
    }
}

/// The symbol at the top of a chain can span what the chain spans.
pub proof fn lemma_top_grows(
    g: earley_chart::Context,
    gr: earley_shape::Ground,
    l: reading::Reading,
    m: earley_chart::ChartModel,
    i: usize,
    item: Item,
    t: int,
)
    requires
        earley_chart::context_ok(g),
        earley_sound::chart_derived(g, l, m, i as int),
        earley_sound::item_derived(g, l, i as int, item),
        earley_chart::is_done(g, item),
        0 <= t < m.arena.len(),
        m.arena[t].recognized == g.rules[item.rule as int].origin,
        m.arena[t].key_start == item.origin,
        m.arena[t].top.origin < i,
        m.arena[t].top.rule < g.rules.len(),
        earley_fill::flags_true(g),
        gr.loose || reading::is_firm(l),
    ensures
        earley_shape::spans(
            g,
            gr,
            g.rules[m.arena[t].top.rule as int].origin,
            m.arena[t].top.origin,
        ),
{
    let x = m.arena[t];
    let top = x.top;
    earley_sound::lemma_done_derived(g, l, i as int, item);
    assert(earley_sound::link_derived(g, l, m.arena[t]));
    assert(reading::reads(g.rules, g.nt, l, x.recognized, x.key_start as int, i as int));
    earley_sound::lemma_done_derived(g, l, i as int, top);
    let s = g.rules[top.rule as int].origin;
    let w = choose|w: Seq<SymbolId>|
        #[trigger] reading::is_read(l, top.origin as int, i as int, w) && reading::is_solid(
            top.origin as int,
            i as int,
            w,
        ) && analysis::derives(g.rules, g.nt, s, w);
    if w.len() == 0 {
        assert(w =~= Seq::empty());
        if reading::is_firm(l) {
            reading::lemma_firm(l, top.origin as int, i as int, w);
        }
        assert(analysis::nullable(g.rules, g.nt, s));
        assert(g.rules[top.rule as int].origin.ix() < g.n);
        assert(g.nullable[s.ix() as int]);
    }
}

pub proof fn lemma_completed_shape(
    g: earley_chart::Context,
    gr: earley_shape::Ground,
    l: reading::Reading,
    m: earley_chart::ChartModel,
    i: usize,
    stack: Seq<Item>,
    item: Item,
    id: usize,
    start: SymbolId,
)
    requires
        earley_sound::context_true(g),
        earley_shape::flags_closed(g),
        earley_fill::flags_true(g),
        gr.loose || reading::is_firm(l),
        gr.start == start,
        earley_sound::chart_derived(g, l, m, i as int),
        earley_complete::links_true(g, m, start, i as int),
        chart_shape(g, gr, m, i as int),
        are_placed(g, gr, m.forest, i as int, stack),
        is_placed(g, gr, m.forest, i as int, item),
        earley_sound::item_derived(g, l, i as int, item),
        earley_chart::is_done(g, item),
        earley_shape::is_at(
            m.forest,
            ForestRef::Node(id),
            NodeKey::Sym(g.rules[item.rule as int].origin),
            item.origin,
            i,
        ),
        earley_recognizer::completed(g, m, i, stack, item, id, start).0.arena.len() <= usize::MAX,
        earley_shape::within_limits(
            earley_recognizer::completed(g, m, i, stack, item, id, start).0.forest,
        ),
    ensures
        ({
            let (n, s) = earley_recognizer::completed(g, m, i, stack, item, id, start);
            &&& chart_shape(g, gr, n, i as int)
            &&& are_placed(g, gr, n.forest, i as int, s)
            &&& earley_shape::grown(m.forest, n.forest)
        }),
{
    let s = g.rules[item.rule as int].origin;
    let j = item.origin as int;
    let m1 = if item.origin != i {
        earley_leo::leo_created(g, m, s, item.origin, start)
    } else {
        m
    };
    earley_sound::lemma_completed_arena(g, m, i, stack, item, id, start);
    if item.origin != i {
        lemma_leo_keeps(g, m, s, item.origin, start);
        earley_sound::lemma_leo_derived(g, l, m, i as int, s, item.origin, start);
        earley_complete::lemma_leo_true(g, l, m, i as int, s, item.origin, start);
        lemma_links_shape(
            g,
            m.arena,
            m1.arena,
            earley_shape::with_cols(gr, m.columns),
            m.forest,
        );
    }
    assert(chart_shape(g, gr, m1, i as int));
    let shortcut = if item.origin != i {
        earley_chart::find_trans(m1.trans[j], s, 0)
    } else {
        None
    };
    match shortcut {
        Some(t) => {
            earley_leo::lemma_find_trans(m1.trans[j], s, 0);
            assert(earley_chart::row_ok(m1, j, m1.trans[j]));
            let k = choose|k: int| 0 <= k < m1.trans[j].len() && #[trigger] m1.trans[j][k] == (s, t);
            assert(m1.trans[j][k].1 < m1.arena.len());
            lemma_top_before(g, gr, m1, start, i as int, t as int);
            lemma_top_grows(g, gr, l, m1, i, item, t as int);
            lemma_leapt_shape(g, gr, m1, i, stack, t, id);
        },
        None => {
            let column = m1.columns[j];
            assert(are_placed(g, gr, m1.forest, j, m1.columns[j]));
            lemma_waiting(g, gr, column, s, m1.forest, j);
            let items = earley_chart::waiting(g, column, s);
            earley_chart::lemma_waiting(g, column, s);
            assert forall|k: int| 0 <= k < items.len() implies is_entered(
                m1.columns,
                j,
                #[trigger] items[k],
            ) by {
                assert(column.contains(items[k]));
                let q = choose|q: int| 0 <= q < column.len() && column[q] == items[k];
                assert(earley_chart::same_item(
                    m1.columns[j][q],
                    earley_shape::mark(items[k].rule, items[k].dot, items[k].origin),
                ));
            }
            lemma_all_advanced_shape(
                g,
                gr,
                m1,
                i,
                stack,
                earley_chart::waiting(g, column, s),
                ForestRef::Node(id),
                j,
                s,
            );
        },
    }
}

pub proof fn lemma_step_shape(
    g: earley_chart::Context,
    gr: earley_shape::Ground,
    l: reading::Reading,
    w: earley_recognizer::Work,
    i: usize,
    start: SymbolId,
)
    requires
        earley_sound::context_true(g),
        earley_shape::flags_closed(g),
        earley_fill::flags_true(g),
        gr.loose || reading::is_firm(l),
        gr.start == start,
        earley_sound::work_derived(g, l, w, i as int),
        earley_exact::work_full(g, w, i, start),
        work_shape(g, gr, w, i as int),
        w.stack.len() > 0,
        earley_recognizer::work_step(g, w, i, start).chart.arena.len() <= usize::MAX,
        earley_shape::within_limits(earley_recognizer::work_step(g, w, i, start).chart.forest),
    ensures
        work_shape(g, gr, earley_recognizer::work_step(g, w, i, start), i as int),
        earley_shape::grown(
            w.chart.forest,
            earley_recognizer::work_step(g, w, i, start).chart.forest,
        ),
{
    let item = w.stack.last();
    let rest = w.stack.drop_last();
    let v = earley_recognizer::work_step(g, w, i, start);
    assert(is_placed(g, gr, w.chart.forest, i as int, w.stack[w.stack.len() - 1]));
    assert(earley_sound::item_derived(g, l, i as int, w.stack[w.stack.len() - 1]));
    assert forall|k: int| 0 <= k < rest.len() implies is_placed(
        g,
        gr,
        w.chart.forest,
        i as int,
        #[trigger] rest[k],
    ) by {
        assert(is_placed(g, gr, w.chart.forest, i as int, w.stack[k]));
    }
    earley_shape::lemma_grown_self(w.chart.forest);
    match earley_chart::expected(g, item) {
        None => {
            let (m1, id) = earley_recognizer::node_for(g, w.chart, i, item);
            lemma_completed_sizes(g, m1, i, rest, item, id, start);
            earley_shape::lemma_sizes_limits(m1.forest, v.chart.forest);
            lemma_node_for_shape(g, gr, w.chart, i, item);
            earley_sound::lemma_node_for_derived(g, l, w.chart, i, item);
            lemma_placed_grown(g, gr, w.chart.forest, m1.forest, i as int, rest);
            lemma_placed_grown(g, gr, w.chart.forest, m1.forest, i as int, seq![item]);
            assert(is_placed(g, gr, m1.forest, i as int, seq![item][0]));
            assert(earley_complete::links_true(g, m1, start, i as int)) by {
                assert forall|t: int| 0 <= t < m1.arena.len() implies #[trigger]
                    earley_complete::link_true(g, m1, start, i as int, t) by {
                    assert(earley_complete::link_true(g, w.chart, start, i as int, t));
                }
            }
            lemma_completed_shape(g, gr, l, m1, i, rest, item, id, start);
            earley_shape::lemma_grown_trans(w.chart.forest, m1.forest, v.chart.forest);
            let s = g.rules[item.rule as int].origin;
            assert forall|x: SymbolId|
                x.ix() < g.n implies (#[trigger] v.held[x.ix() as int] matches Some(h)
                ==> earley_shape::is_at(
                v.chart.forest,
                ForestRef::Node(h),
                NodeKey::Sym(x),
                i,
                i,
            )) by {
                if item.origin == i && x.ix() == s.ix() {
                    assert(x == s);
                    earley_shape::lemma_at_grown(
                        m1.forest,
                        v.chart.forest,
                        ForestRef::Node(id),
                        NodeKey::Sym(s),
                        i,
                        i,
                    );
                } else if let Some(h) = w.held[x.ix() as int] {
                    earley_shape::lemma_at_grown(
                        w.chart.forest,
                        v.chart.forest,
                        ForestRef::Node(h),
                        NodeKey::Sym(x),
                        i,
                        i,
                    );
                }
            }
        },
        Some(s) => {
            if s.ix() >= g.nt {
                let (m1, s1) = earley_chart::predicted(g, w.chart, i, rest, s, g.rules.len());
                lemma_predicted_shape(g, gr, w.chart, i, rest, s, g.rules.len());
                assert(s.ix() < g.n) by {
                    assert(g.rules[item.rule as int].expansion[item.dot as int].ix() < g.n);
                }
                if let Some(h) = w.held[s.ix() as int] {
                    lemma_advanced_shape(g, gr, m1, i, s1, item, ForestRef::Node(h), i as int);
                    assert forall|x: SymbolId|
                        x.ix() < g.n implies (#[trigger] v.held[x.ix() as int] matches Some(q)
                        ==> earley_shape::is_at(
                        v.chart.forest,
                        ForestRef::Node(q),
                        NodeKey::Sym(x),
                        i,
                        i,
                    )) by {
                        if let Some(q) = w.held[x.ix() as int] {
                            earley_shape::lemma_at_grown(
                                w.chart.forest,
                                v.chart.forest,
                                ForestRef::Node(q),
                                NodeKey::Sym(x),
                                i,
                                i,
                            );
                        }
                    }
                }
            }
        },
    }
}

pub proof fn lemma_run_shape(
    g: earley_chart::Context,
    gr: earley_shape::Ground,
    l: reading::Reading,
    w: earley_recognizer::Work,
    i: usize,
    start: SymbolId,
    k: nat,
)
    requires
        earley_sound::context_true(g),
        earley_shape::flags_closed(g),
        earley_fill::flags_true(g),
        gr.loose || reading::is_firm(l),
        gr.start == start,
        earley_sound::work_derived(g, l, w, i as int),
        earley_exact::work_full(g, w, i, start),
        work_shape(g, gr, w, i as int),
        forall|j: nat|
            j < k ==> (#[trigger] earley_recognizer::work_run(g, w, i, start, j)).stack.len() > 0,
        earley_recognizer::work_run(g, w, i, start, k).chart.arena.len() <= usize::MAX,
        earley_shape::within_limits(
            earley_recognizer::work_run(g, w, i, start, k).chart.forest,
        ),
    ensures
        work_shape(g, gr, earley_recognizer::work_run(g, w, i, start, k), i as int),
    decreases k,
{
    if k > 0 {
        let j = (k - 1) as nat;
        let u = earley_recognizer::work_run(g, w, i, start, j);
        earley_exact::lemma_run_links(g, w, i, start, j, k);
        lemma_run_sizes(g, w, i, start, j, k);
        earley_shape::lemma_sizes_limits(
            u.chart.forest,
            earley_recognizer::work_run(g, w, i, start, k).chart.forest,
        );
        lemma_run_shape(g, gr, l, w, i, start, j);
        earley_exact::lemma_run_full(g, l, w, i, start, j);
        assert(u.stack.len() > 0);
        lemma_step_shape(g, gr, l, u, i, start);
    }
}

pub proof fn lemma_closed_at_shape(
    g: earley_chart::Context,
    gr: earley_shape::Ground,
    l: reading::Reading,
    m: earley_chart::ChartModel,
    i: usize,
    start: SymbolId,
    n: earley_chart::ChartModel,
)
    requires
        earley_sound::context_true(g),
        earley_shape::flags_closed(g),
        earley_fill::flags_true(g),
        gr.loose || reading::is_firm(l),
        gr.start == start,
        earley_exact::can_close(g, l, m, i, start),
        chart_shape(g, gr, m, i as int),
        earley_recognizer::closed_at(g, m, i, start, n),
        earley_shape::within_limits(n.forest),
    ensures
        chart_shape(g, gr, n, i as int),
        earley_shape::sizes_le(m.forest, n.forest),
{
    let w = earley_recognizer::begun(g, m, i as int);
    let (k, v) = choose|k: nat, v: earley_recognizer::Work|
        #[trigger] earley_recognizer::work_reaches(g, w, i, start, v, k) && v.stack.len() == 0
            && v.chart == n && n.arena.len() <= usize::MAX;
    earley_exact::lemma_begun_full(g, l, m, i, start);
    assert(are_placed(g, gr, m.forest, i as int, m.columns[i as int]));
    assert(work_shape(g, gr, w, i as int));
    lemma_run_shape(g, gr, l, w, i, start, k);
    lemma_run_sizes(g, w, i, start, 0, k);
}

pub proof fn lemma_closed_at_sizes(
    g: earley_chart::Context,
    m: earley_chart::ChartModel,
    i: usize,
    start: SymbolId,
    n: earley_chart::ChartModel,
)
    requires
        earley_chart::context_ok(g),
        earley_recognizer::closed_at(g, m, i, start, n),
    ensures
        earley_shape::sizes_le(m.forest, n.forest),
{
    let w = earley_recognizer::begun(g, m, i as int);
    let (k, v) = choose|k: nat, v: earley_recognizer::Work|
        #[trigger] earley_recognizer::work_reaches(g, w, i, start, v, k) && v.stack.len() == 0
            && v.chart == n && n.arena.len() <= usize::MAX;
    lemma_run_sizes(g, w, i, start, 0, k);
}

// ---------------------------------------------------------------------------
// Scanning

pub proof fn lemma_token_shape(
    g: earley_chart::Context,
    arena: Seq<Trans>,
    gr: earley_shape::Ground,
    f: earley_forest::ForestModel,
    t: tree::TokenModel,
)
    requires
        is_sound(g, arena, gr, f),
    ensures
        is_sound(g, arena, gr, earley_forest::token_added(f, t)),
        earley_shape::grown(f, earley_forest::token_added(f, t)),
{
    let h = earley_forest::token_added(f, t);
    earley_shape::lemma_grown_self(f);
    assert(earley_forest::extends(f, h));
    assert forall|i: int, k: int|
        0 <= i < h.nodes.len() && 0 <= k < h.nodes[i].families.len() implies
        earley_shape::is_family(g, gr, h, h.nodes[i], #[trigger] h.nodes[i].families[k]) by {
        earley_shape::lemma_family_grown(
            g,
            gr,
            f,
            h,
            f.nodes[i],
            h.nodes[i],
            f.nodes[i].families[k],
        );
    }
    assert forall|i: int, k: int|
        0 <= i < h.nodes.len() && 0 <= k < h.nodes[i].paths.len() implies earley_shape::is_path(
        g,
        gr,
        arena,
        h,
        h.nodes[i],
        #[trigger] h.nodes[i].paths[k],
    ) by {
        earley_shape::lemma_path_grown(
            g,
            gr,
            arena,
            f,
            h,
            f.nodes[i],
            h.nodes[i],
            f.nodes[i].paths[k],
        );
    }
    let k = earley_good::nothing_known();
    assert forall|x: int| 0 <= x < h.nodes.len() implies #[trigger] earley_good::is_good(
        h,
        k,
        x,
    ) by {
        assert(earley_good::is_good(f, k, x));
        earley_good::lemma_is_good_grown(f, h, k, x);
    }
}

pub proof fn lemma_scanned_shape(
    g: earley_chart::Context,
    arena: Seq<Trans>,
    gr: earley_shape::Ground,
    f: earley_forest::ForestModel,
    items: Seq<Item>,
    t: SymbolId,
    right: ForestRef,
    i: int,
    k: nat,
)
    requires
        earley_chart::context_ok(g),
        earley_shape::flags_closed(g),
        is_sound(g, arena, gr, f),
        !gr.loose,
        are_placed(g, gr, f, i, items),
        forall|q: int| 0 <= q < items.len() ==> earley_chart::wants_terminal(g, #[trigger] items[q]),
        right == ForestRef::Tok(i as usize),
        i < f.tokens.len(),
        f.tokens[i].type_id == t,
        0 <= i < usize::MAX,
        k <= items.len(),
        earley_shape::within_limits(
            earley_recognizer::scanned(g, f, items, t, right, (i + 1) as usize, k).forest,
        ),
    ensures
        ({
            let s = earley_recognizer::scanned(g, f, items, t, right, (i + 1) as usize, k);
            &&& is_sound(g, arena, gr, s.forest)
            &&& earley_shape::grown(f, s.forest)
            &&& are_placed(g, gr, s.forest, i + 1, s.column)
            &&& are_placed(g, gr, s.forest, i + 1, s.scan)
            &&& none_waits(g, s.column)
        }),
    decreases k,
{
    let end = (i + 1) as usize;
    if k == 0 {
        earley_shape::lemma_grown_self(f);
    } else {
        let p = earley_recognizer::scanned(g, f, items, t, right, end, (k - 1) as nat);
        let o = items[k - 1];
        let (f1, item) = earley_chart::moved(g, p.forest, o, right, end);
        lemma_moved_sizes(g, p.forest, o, right, end);
        earley_shape::lemma_sizes_limits(
            p.forest,
            earley_recognizer::scanned(g, f, items, t, right, end, k).forest,
        );
        lemma_scanned_shape(g, arena, gr, f, items, t, right, i, (k - 1) as nat);
        if earley_chart::expected(g, o) == Some(t) {
            assert(is_placed(g, gr, f, i, items[k - 1]));
            assert(earley_chart::wants_terminal(g, items[k - 1]));
            lemma_placed_grown(g, gr, f, p.forest, i, seq![o]);
            assert(is_placed(g, gr, p.forest, i, seq![o][0]));
            lemma_moved_shape(g, arena, gr, p.forest, o, right, i, end);
            earley_shape::lemma_grown_trans(f, p.forest, f1);
            lemma_placed_grown(g, gr, p.forest, f1, i + 1, p.column);
            lemma_placed_grown(g, gr, p.forest, f1, i + 1, p.scan);
        }
    }
}

/// The chart up to a column is in shape.
pub proof fn lemma_charted_shape(
    g: earley_chart::Context,
    start: SymbolId,
    tokens: Seq<tree::TokenModel>,
    types: Seq<SymbolId>,
    i: nat,
    m: earley_chart::ChartModel,
)
    requires
        earley_sound::context_true(g),
        earley_shape::flags_closed(g),
        earley_fill::flags_true(g),
        earley_recognizer::charted(g, start, tokens, i, m),
        i <= tokens.len(),
        i <= types.len() <= usize::MAX,
        forall|k: int| 0 <= k < i ==> tokens[k].type_id == #[trigger] types[k],
        earley_shape::within_limits(m.forest),
    ensures
        chart_shape(g, earley_shape::firm(m.columns, start), m, i as int),
        m.forest.tokens == tokens.take(i as int),
    decreases i,
{
    let l = reading::of_types(types, start);
    let gr = earley_shape::firm(m.columns, start);
    assert(reading::is_firm(l));
    if i == 0 {
        let b = earley_recognizer::blank_chart();
        lemma_closed_at_sizes(g, earley_recognizer::started(g, start), 0, start, m);
        earley_exact::lemma_started_full(g, l, start);
        assert(chart_shape(g, gr, b, 0));
        lemma_predicted_shape(g, gr, b, 0, Seq::empty(), start, g.rules.len());
        assert(m.forest.tokens =~= tokens.take(0));
        lemma_closed_at_shape(
            g,
            gr,
            l,
            earley_recognizer::started(g, start),
            0,
            start,
            m,
        );
    } else {
        let j = (i - 1) as nat;
        let p = choose|p: earley_chart::ChartModel|
            earley_recognizer::charted(g, start, tokens, j, p) && #[trigger] earley_recognizer::follows(
                g,
                start,
                tokens,
                i as int,
                p,
                m,
            );
        let t = tokens[j as int];
        assert(t.type_id == types[j as int]);
        let f = earley_forest::token_added(p.forest, t);
        let right = ForestRef::Tok(p.forest.tokens.len() as usize);
        let before = earley_exact::lemma_charted_full(g, start, tokens, types, j, p);
        let s = earley_recognizer::scanned(
            g,
            f,
            p.scan,
            t.type_id,
            right,
            i as usize,
            p.scan.len(),
        );
        let n = earley_recognizer::next_chart(p, s);
        assert(earley_recognizer::scan_step(g, p, t) == Some(n));
        lemma_closed_at_sizes(g, n, i as usize, start, m);
        earley_shape::lemma_sizes_limits(n.forest, m.forest);
        lemma_scanned_sizes(g, f, p.scan, t.type_id, right, i as usize, p.scan.len());
        earley_shape::lemma_sizes_limits(f, n.forest);
        assert(earley_shape::within_limits(p.forest));
        lemma_charted_shape(g, start, tokens, types, j, p);
        assert(reading::tok_at(l, j as int, j as int + 1, t.type_id));
        earley_exact::lemma_scan_full(g, l, start, j as int, p, before, t);
        assert(tokens.take(i as int) =~= tokens.take(j as int).push(t));
        let at = earley_shape::with_cols(gr, p.columns);
        lemma_token_shape(g, p.arena, at, p.forest, t);
        lemma_placed_grown(g, gr, p.forest, f, j as int, p.scan);
        lemma_scanned_shape(
            g,
            p.arena,
            at,
            f,
            p.scan,
            t.type_id,
            right,
            j as int,
            p.scan.len(),
        );
        earley_shape::lemma_grown_trans(p.forest, f, s.forest);
        assert forall|c: int| 0 <= c < n.columns.len() implies are_placed(
            g,
            gr,
            n.forest,
            c,
            #[trigger] n.columns[c],
        ) by {
            if c < p.columns.len() {
                assert(n.columns[c] == p.columns[c]);
                assert(are_placed(g, at, p.forest, c, p.columns[c]));
                lemma_placed_grown(g, gr, p.forest, s.forest, c, p.columns[c]);
            }
        }
        earley_shape::lemma_cols_shape(
            g,
            p.arena,
            at,
            earley_shape::with_cols(gr, n.columns),
            s.forest,
        );
        lemma_closed_at_shape(g, gr, l, n, i as usize, start, m);
    }
}

} // verus!
