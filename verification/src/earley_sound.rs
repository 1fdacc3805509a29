//! What the Earley chart holds is derived by the grammar.

use vstd::prelude::*;
use crate::analysis;
use crate::earley_chart;
use crate::earley_forest;
use crate::earley_forest::{ForestRef, Item, NodeKey, Trans};
use crate::earley_leo;
use crate::earley_recognizer;
use crate::reading;
use crate::symbols::SymbolId;

verus! {

/// Whether the flags of the context are those of its grammar.
pub open spec fn context_true(g: earley_chart::Context) -> bool {
    &&& earley_chart::context_ok(g)
    &&& forall|s: SymbolId|
        s.ix() < g.n ==> #[trigger] g.eps_only[s.ix() as int] == analysis::eps_only(
            g.rules,
            g.nt,
            s,
        )
}

/// Whether what an item has passed is derived by its symbols.
pub open spec fn item_derived(
    g: earley_chart::Context,
    l: reading::Reading,
    c: int,
    x: Item,
) -> bool {
    &&& x.rule < g.rules.len()
    &&& x.dot <= g.rules[x.rule as int].expansion.len()
    &&& x.origin <= c <= l.size
    &&& reading::reads_all(
        g.rules,
        g.nt,
        l,
        g.rules[x.rule as int].expansion.take(x.dot as int),
        x.origin as int,
        c,
        earley_chart::wants_terminal(g, x),
    )
}

/// Whether what each item has passed is derived by its symbols.
pub open spec fn items_derived(
    g: earley_chart::Context,
    l: reading::Reading,
    c: int,
    s: Seq<Item>,
) -> bool {
    forall|k: int| 0 <= k < s.len() ==> item_derived(g, l, c, #[trigger] s[k])
}

/// Whether a node of the whole input read as the symbol aimed at is one only
/// where that symbol derives it.
pub open spec fn node_derived(
    g: earley_chart::Context,
    l: reading::Reading,
    n: earley_forest::NodeModel,
) -> bool {
    n.key == NodeKey::Sym(l.aim) && n.start == 0 && n.end == l.size ==> reading::reads(
        g.rules,
        g.nt,
        l,
        l.aim,
        0,
        l.size as int,
    )
}

/// Whether the same holds of each node.
pub open spec fn nodes_derived(
    g: earley_chart::Context,
    l: reading::Reading,
    f: earley_forest::ForestModel,
) -> bool {
    forall|k: int| 0 <= k < f.nodes.len() ==> node_derived(g, l, #[trigger] f.nodes[k])
}

/// Whether a link leads from what its symbol derives to what its top item has
/// passed.
pub open spec fn link_derived(
    g: earley_chart::Context,
    l: reading::Reading,
    x: Trans,
) -> bool {
    forall|c: int|
        x.key_start <= c <= l.size && #[trigger] reading::reads(
            g.rules,
            g.nt,
            l,
            x.recognized,
            x.key_start as int,
            c,
        ) ==> item_derived(g, l, c, x.top) && earley_chart::is_done(g, x.top)
}

/// Whether everything in the chart is derived.
pub open spec fn chart_derived(
    g: earley_chart::Context,
    l: reading::Reading,
    m: earley_chart::ChartModel,
    i: int,
) -> bool {
    &&& 0 <= i < m.columns.len()
    &&& i <= l.size
    &&& m.trans.len() == m.columns.len()
    &&& forall|c: int|
        0 <= c < m.columns.len() ==> items_derived(g, l, c, #[trigger] m.columns[c])
    &&& items_derived(g, l, i, m.scan)
    &&& forall|t: int| 0 <= t < m.arena.len() ==> link_derived(g, l, #[trigger] m.arena[t])
    &&& forall|c: int| 0 <= c < m.trans.len() ==> earley_chart::row_ok(m, c, #[trigger] m.trans[c])
    &&& nodes_derived(g, l, m.forest)
}

proof fn lemma_got_derived(
    g: earley_chart::Context,
    l: reading::Reading,
    f: earley_forest::ForestModel,
    key: NodeKey,
    start: usize,
    end: usize,
)
    requires
        nodes_derived(g, l, f),
        node_derived(g, l, earley_forest::bare_node(key, start, end)),
    ensures
        nodes_derived(g, l, earley_forest::got(f, key, start, end).0),
        0 <= earley_forest::got(f, key, start, end).1 < earley_forest::got(
            f,
            key,
            start,
            end,
        ).0.nodes.len(),
{
    earley_forest::lemma_find_node(f.nodes, key, start, end, 0);
}

proof fn lemma_family_derived(
    g: earley_chart::Context,
    l: reading::Reading,
    f: earley_forest::ForestModel,
    id: int,
    p: earley_forest::Packed,
    order: usize,
)
    requires
        nodes_derived(g, l, f),
        0 <= id < f.nodes.len(),
    ensures
        nodes_derived(g, l, earley_forest::family_added(f, id, p, order)),
{
    let h = earley_forest::family_added(f, id, p, order);
    assert forall|k: int| 0 <= k < h.nodes.len() implies node_derived(
        g,
        l,
        #[trigger] h.nodes[k],
    ) by {
        assert(node_derived(g, l, f.nodes[k]));
    }
}

proof fn lemma_path_derived(
    g: earley_chart::Context,
    l: reading::Reading,
    f: earley_forest::ForestModel,
    id: int,
    path: (usize, ForestRef, usize),
)
    requires
        nodes_derived(g, l, f),
        0 <= id < f.nodes.len(),
    ensures
        nodes_derived(g, l, earley_forest::path_added(f, id, path)),
{
    let h = earley_forest::path_added(f, id, path);
    assert forall|k: int| 0 <= k < h.nodes.len() implies node_derived(
        g,
        l,
        #[trigger] h.nodes[k],
    ) by {
        assert(node_derived(g, l, f.nodes[k]));
    }
}

/// A complete item's symbol derives what the item has passed.
pub proof fn lemma_done_derived(
    g: earley_chart::Context,
    l: reading::Reading,
    c: int,
    x: Item,
)
    requires
        earley_chart::context_ok(g),
        item_derived(g, l, c, x),
        earley_chart::is_done(g, x),
    ensures
        reading::reads(
            g.rules,
            g.nt,
            l,
            g.rules[x.rule as int].origin,
            x.origin as int,
            c,
        ),
{
    let e = g.rules[x.rule as int].expansion;
    assert(e.take(x.dot as int) =~= e);
    assert(g.rules[x.rule as int].origin.ix() >= g.nt);
    reading::lemma_reads_rule(g.rules, g.nt, l, x.rule as int, x.origin as int, c);
}

/// An item moved over a symbol has passed what the symbol derives too.
pub proof fn lemma_moved_derived(
    g: earley_chart::Context,
    l: reading::Reading,
    j: int,
    c: int,
    o: Item,
    s: SymbolId,
)
    requires
        earley_chart::context_ok(g),
        item_derived(g, l, j, o),
        earley_chart::expected(g, o) == Some(s),
        j <= c <= l.size,
        reading::reads(g.rules, g.nt, l, s, j, c),
    ensures
        forall|n: ForestRef|
            #[trigger] item_derived(
                g,
                l,
                c,
                Item { rule: o.rule, dot: (o.dot + 1) as usize, origin: o.origin, node: n },
            ),
{
    let e = g.rules[o.rule as int].expansion;
    reading::lemma_reads_push(
        g.rules,
        g.nt,
        l,
        e.take(o.dot as int),
        s,
        o.origin as int,
        j,
        c,
        earley_chart::wants_terminal(g, o),
    );
    assert(e.take(o.dot as int).push(s) =~= e.take(o.dot + 1));
}

proof fn lemma_entered_derived(
    g: earley_chart::Context,
    l: reading::Reading,
    m: earley_chart::ChartModel,
    i: int,
    stack: Seq<Item>,
    item: Item,
)
    requires
        chart_derived(g, l, m, i),
        items_derived(g, l, i, stack),
        item_derived(g, l, i, item),
    ensures
        chart_derived(g, l, earley_chart::entered(g, m, i, stack, item).0, i),
        items_derived(g, l, i, earley_chart::entered(g, m, i, stack, item).1),
{
    let (n, s) = earley_chart::entered(g, m, i, stack, item);
    assert forall|c: int| 0 <= c < n.columns.len() implies items_derived(
        g,
        l,
        c,
        #[trigger] n.columns[c],
    ) by {
        assert(items_derived(g, l, c, m.columns[c]));
    }
    assert forall|c: int| 0 <= c < n.trans.len() implies earley_chart::row_ok(
        n,
        c,
        #[trigger] n.trans[c],
    ) by {
        assert(earley_chart::row_ok(m, c, m.trans[c]));
    }
}

proof fn lemma_forest_derived(
    g: earley_chart::Context,
    l: reading::Reading,
    m: earley_chart::ChartModel,
    i: int,
    f: earley_forest::ForestModel,
)
    requires
        chart_derived(g, l, m, i),
        nodes_derived(g, l, f),
    ensures
        chart_derived(g, l, (earley_chart::ChartModel { forest: f, ..m }), i),
{
    let n = earley_chart::ChartModel { forest: f, ..m };
    assert forall|c: int| 0 <= c < n.trans.len() implies earley_chart::row_ok(
        n,
        c,
        #[trigger] n.trans[c],
    ) by {
        assert(earley_chart::row_ok(m, c, m.trans[c]));
    }
}

/// Moving an item keeps nodes derived.
pub proof fn lemma_moved_nodes(
    g: earley_chart::Context,
    l: reading::Reading,
    f: earley_forest::ForestModel,
    j: int,
    end: usize,
    o: Item,
    s: SymbolId,
    right: ForestRef,
)
    requires
        earley_chart::context_ok(g),
        nodes_derived(g, l, f),
        item_derived(g, l, j, o),
        earley_chart::expected(g, o) == Some(s),
        j <= end <= l.size,
        reading::reads(g.rules, g.nt, l, s, j, end as int),
    ensures
        nodes_derived(g, l, earley_chart::moved(g, f, o, right, end).0),
        item_derived(g, l, end as int, earley_chart::moved(g, f, o, right, end).1),
{
    lemma_moved_derived(g, l, j, end as int, o, s);
    let (h, item) = earley_chart::moved(g, f, o, right, end);
    assert(item_derived(
        g,
        l,
        end as int,
        Item { rule: o.rule, dot: (o.dot + 1) as usize, origin: o.origin, node: item.node },
    ));
    let key = earley_chart::key_at(g, o.rule, o.dot + 1);
    assert(node_derived(g, l, earley_forest::bare_node(key, o.origin, end))) by {
        if key is Sym {
            lemma_done_derived(g, l, end as int, item);
        }
    }
    lemma_got_derived(g, l, f, key, o.origin, end);
    let (f1, id) = earley_forest::got(f, key, o.origin, end);
    lemma_family_derived(
        g,
        l,
        f1,
        id,
        earley_chart::moved_family(o, right),
        g.rules[o.rule as int].order,
    );
}

proof fn lemma_advanced_derived(
    g: earley_chart::Context,
    l: reading::Reading,
    m: earley_chart::ChartModel,
    j: int,
    i: usize,
    stack: Seq<Item>,
    o: Item,
    s: SymbolId,
    right: ForestRef,
)
    requires
        earley_chart::context_ok(g),
        chart_derived(g, l, m, i as int),
        items_derived(g, l, i as int, stack),
        item_derived(g, l, j, o),
        earley_chart::expected(g, o) == Some(s),
        j <= i <= l.size,
        reading::reads(g.rules, g.nt, l, s, j, i as int),
    ensures
        chart_derived(
            g,
            l,
            earley_chart::advanced(g, m, i, stack, o, right).0,
            i as int,
        ),
        items_derived(g, l, i as int, earley_chart::advanced(g, m, i, stack, o, right).1),
{
    lemma_moved_nodes(g, l, m.forest, j, i, o, s, right);
    let (f, item) = earley_chart::moved(g, m.forest, o, right, i);
    lemma_forest_derived(g, l, m, i as int, f);
    lemma_entered_derived(
        g,
        l,
        earley_chart::ChartModel { forest: f, ..m },
        i as int,
        stack,
        item,
    );
}

proof fn lemma_all_advanced_derived(
    g: earley_chart::Context,
    l: reading::Reading,
    m: earley_chart::ChartModel,
    j: int,
    i: usize,
    stack: Seq<Item>,
    items: Seq<Item>,
    s: SymbolId,
    right: ForestRef,
)
    requires
        earley_chart::context_ok(g),
        chart_derived(g, l, m, i as int),
        items_derived(g, l, i as int, stack),
        items_derived(g, l, j, items),
        forall|k: int|
            0 <= k < items.len() ==> earley_chart::expected(g, #[trigger] items[k]) == Some(s),
        j <= i <= l.size,
        reading::reads(g.rules, g.nt, l, s, j, i as int),
    ensures
        chart_derived(
            g,
            l,
            earley_chart::all_advanced(g, m, i, stack, items, right).0,
            i as int,
        ),
        items_derived(
            g,
            l,
            i as int,
            earley_chart::all_advanced(g, m, i, stack, items, right).1,
        ),
    decreases items.len(),
{
    if items.len() > 0 {
        let front = items.drop_last();
        assert forall|k: int| 0 <= k < front.len() implies item_derived(
            g,
            l,
            j,
            #[trigger] front[k],
        ) && earley_chart::expected(g, front[k]) == Some(s) by {
            assert(front[k] == items[k]);
            assert(item_derived(g, l, j, items[k]));
        }
        lemma_all_advanced_derived(g, l, m, j, i, stack, front, s, right);
        let (m1, s1) = earley_chart::all_advanced(g, m, i, stack, front, right);
        assert(item_derived(g, l, j, items[items.len() - 1]));
        assert(earley_chart::expected(g, items[items.len() - 1]) == Some(s));
        lemma_advanced_derived(g, l, m1, j, i, s1, items.last(), s, right);
    }
}

proof fn lemma_fresh_derived(
    g: earley_chart::Context,
    l: reading::Reading,
    r: int,
    i: usize,
)
    requires
        earley_chart::context_ok(g),
        0 <= r < g.rules.len(),
        i <= l.size,
    ensures
        item_derived(g, l, i as int, earley_chart::fresh(r, i)),
{
    analysis::lemma_derives_nothing(g.rules, g.nt);
    assert(g.rules[r].expansion.take(0) =~= Seq::empty());
    reading::lemma_reads_nothing(g.rules, g.nt, l, Seq::empty(), i as int);
}

/// Entering the rules of a symbol keeps everything derived.
pub proof fn lemma_predicted_derived(
    g: earley_chart::Context,
    l: reading::Reading,
    m: earley_chart::ChartModel,
    i: usize,
    stack: Seq<Item>,
    s: SymbolId,
    k: nat,
)
    requires
        earley_chart::context_ok(g),
        chart_derived(g, l, m, i as int),
        items_derived(g, l, i as int, stack),
        k <= g.rules.len(),
    ensures
        chart_derived(g, l, earley_chart::predicted(g, m, i, stack, s, k).0, i as int),
        items_derived(g, l, i as int, earley_chart::predicted(g, m, i, stack, s, k).1),
    decreases k,
{
    if k > 0 {
        lemma_predicted_derived(g, l, m, i, stack, s, (k - 1) as nat);
        let (m1, s1) = earley_chart::predicted(g, m, i, stack, s, (k - 1) as nat);
        lemma_fresh_derived(g, l, k - 1, i);
        lemma_entered_derived(g, l, m1, i as int, s1, earley_chart::fresh(k - 1, i));
    }
}

// ---------------------------------------------------------------------------
// Chains

/// Whether the links of a chain lead upward: from a symbol to the only item
/// that waits for it, and on to the symbol that this item produces.
pub open spec fn chain_derived(
    g: earley_chart::Context,
    l: reading::Reading,
    made: Seq<(SymbolId, usize, Item)>,
) -> bool {
    forall|k: int|
        0 <= k < made.len() ==> {
            let (rec, col, o) = #[trigger] made[k];
            &&& item_derived(g, l, col as int, o)
            &&& earley_chart::expected(g, o) == Some(rec)
            &&& forall|j: int|
                o.dot < j < g.rules[o.rule as int].expansion.len() ==> g.eps_only[(
                #[trigger] g.rules[o.rule as int].expansion[j]).ix() as int]
            &&& k + 1 < made.len() ==> made[k + 1].0 == g.rules[o.rule as int].origin && made[k
                + 1].1 == o.origin
        }
}

/// The tail of an item that is as good as complete derives nothing.
pub proof fn lemma_tail_derived(
    g: earley_chart::Context,
    l: reading::Reading,
    j: int,
    c: int,
    o: Item,
    s: SymbolId,
)
    requires
        context_true(g),
        item_derived(g, l, j, o),
        earley_chart::expected(g, o) == Some(s),
        forall|q: int|
            o.dot < q < g.rules[o.rule as int].expansion.len() ==> g.eps_only[(
            #[trigger] g.rules[o.rule as int].expansion[q]).ix() as int],
        j <= c <= l.size,
        reading::reads(g.rules, g.nt, l, s, j, c),
    ensures
        item_derived(g, l, c, earley_leo::done_item(g, o)),
{
    let e = g.rules[o.rule as int].expansion;
    let tail = e.skip(o.dot + 1);
    assert forall|q: int| 0 <= q < tail.len() implies analysis::nullable(
        g.rules,
        g.nt,
        #[trigger] tail[q],
    ) by {
        assert(tail[q] == g.rules[o.rule as int].expansion[q + o.dot + 1]);
        assert(g.eps_only[tail[q].ix() as int]);
        assert(tail[q].ix() < g.n);
        assert(g.eps_only[tail[q].ix() as int] == analysis::eps_only(g.rules, g.nt, tail[q]));
    }
    analysis::lemma_all_nullable_derives(g.rules, g.nt, tail);
    reading::lemma_reads_push(
        g.rules,
        g.nt,
        l,
        e.take(o.dot as int),
        s,
        o.origin as int,
        j,
        c,
        earley_chart::wants_terminal(g, o),
    );
    assert(e.take(o.dot as int).push(s) =~= e.take(o.dot + 1));
    assert(reading::reads_all(
        g.rules,
        g.nt,
        l,
        e.take(o.dot as int).push(s),
        o.origin as int,
        c,
        false,
    ));
    reading::lemma_reads_tail(
        g.rules,
        g.nt,
        l,
        e.take(o.dot + 1),
        tail,
        o.origin as int,
        c,
        false,
    );
    assert(e.take(o.dot + 1) + tail =~= e);
    assert(e.take(e.len() as int) =~= e);
}

/// Following a chain upward keeps it derived, and ends either at its own top
/// or at a link.
proof fn lemma_followed_derived(
    g: earley_chart::Context,
    l: reading::Reading,
    m: earley_chart::ChartModel,
    i: int,
    start: SymbolId,
    rec: SymbolId,
    col: usize,
    visited: Seq<(usize, SymbolId)>,
    made: Seq<(SymbolId, usize, Item)>,
    top: Option<Item>,
    fuel: nat,
)
    requires
        context_true(g),
        chart_derived(g, l, m, i),
        col < m.columns.len(),
        chain_derived(g, l, made),
        made.len() > 0 ==> {
            let o = made.last().2;
            &&& rec == g.rules[o.rule as int].origin
            &&& col == o.origin
            &&& top == Some(earley_leo::done_item(g, o))
        },
        made.len() == 0 ==> top is None,
    ensures
        ({
            let c = earley_leo::followed(g, m, start, rec, col, visited, made, top, fuel);
            &&& chain_derived(g, l, c.made)
            &&& c.made.len() >= made.len()
            &&& match c.parent {
                Some(t) => {
                    &&& t < m.arena.len()
                    &&& c.top == Some(m.arena[t as int].top)
                    &&& c.made.len() > 0 ==> {
                        let o = c.made.last().2;
                        &&& m.arena[t as int].recognized == g.rules[o.rule as int].origin
                        &&& m.arena[t as int].key_start == o.origin
                    }
                },
                None => {
                    &&& c.made.len() > 0 ==> c.top == Some(
                        earley_leo::done_item(g, c.made.last().2),
                    )
                    &&& c.made.len() == 0 ==> c.top is None
                },
            }
        }),
    decreases fuel,
{
    earley_leo::lemma_find_trans(m.trans[col as int], rec, 0);
    match earley_chart::find_trans(m.trans[col as int], rec, 0) {
        Some(t) => {
            assert(earley_chart::row_ok(m, col as int, m.trans[col as int]));
            let k = choose|k: int|
                0 <= k < m.trans[col as int].len() && #[trigger] m.trans[col as int][k] == (rec, t);
            assert(m.trans[col as int][k].1 < m.arena.len());
        },
        None => {
            let waiters = earley_chart::waiting(g, m.columns[col as int], rec);
            if fuel == 0 || visited.contains((col, rec)) || (rec == start && col == 0)
                || waiters.len() != 1 || !earley_leo::quasi_complete(g, waiters[0], start) {
            } else {
                let o = waiters[0];
                earley_chart::lemma_waiting(g, m.columns[col as int], rec);
                assert(m.columns[col as int].contains(waiters[0]));
                let q = choose|q: int|
                    0 <= q < m.columns[col as int].len() && m.columns[col as int][q] == o;
                assert(items_derived(g, l, col as int, m.columns[col as int]));
                assert(item_derived(g, l, col as int, m.columns[col as int][q]));
                let more = made.push((rec, col, o));
                assert(chain_derived(g, l, more)) by {
                    assert forall|k: int| 0 <= k < more.len() implies ({
                        let (rec, col, o) = #[trigger] more[k];
                        &&& item_derived(g, l, col as int, o)
                        &&& earley_chart::expected(g, o) == Some(rec)
                        &&& forall|j: int|
                            o.dot < j < g.rules[o.rule as int].expansion.len() ==> g.eps_only[(
                            #[trigger] g.rules[o.rule as int].expansion[j]).ix() as int]
                        &&& k + 1 < more.len() ==> more[k + 1].0 == g.rules[o.rule as int].origin
                            && more[k + 1].1 == o.origin
                    }) by {
                        if k < made.len() {
                            assert(more[k] == made[k]);
                            if k + 1 < made.len() {
                                assert(more[k + 1] == made[k + 1]);
                            } else {
                                assert(made.last() == made[k]);
                            }
                        }
                    }
                }
                lemma_followed_derived(
                    g,
                    l,
                    m,
                    i,
                    start,
                    g.rules[o.rule as int].origin,
                    o.origin,
                    visited.push((col, rec)),
                    more,
                    Some(earley_leo::done_item(g, o)),
                    (fuel - 1) as nat,
                );
            }
        },
    }
}

/// Entering the links of a chain keeps everything derived.
proof fn lemma_linked_derived(
    g: earley_chart::Context,
    l: reading::Reading,
    m: earley_chart::ChartModel,
    i: int,
    made: Seq<(SymbolId, usize, Item)>,
    parent: Option<usize>,
    top: Item,
)
    requires
        context_true(g),
        chart_derived(g, l, m, i),
        chain_derived(g, l, made),
        forall|k: int| 0 <= k < made.len() ==> (#[trigger] made[k]).1 < m.columns.len(),
        earley_leo::linked(m, made, parent, top).arena.len() <= usize::MAX,
        made.len() > 0 ==> match parent {
            Some(t) => {
                let o = made.last().2;
                &&& t < m.arena.len()
                &&& top == m.arena[t as int].top
                &&& m.arena[t as int].recognized == g.rules[o.rule as int].origin
                &&& m.arena[t as int].key_start == o.origin
            },
            None => top == earley_leo::done_item(g, made.last().2),
        },
    ensures
        chart_derived(g, l, earley_leo::linked(m, made, parent, top), i),
        earley_leo::linked(m, made, parent, top).columns == m.columns,
        earley_leo::linked(m, made, parent, top).forest == m.forest,
        earley_leo::linked(m, made, parent, top).scan == m.scan,
    decreases made.len(),
{
    if made.len() > 0 {
        let (rec, col, o) = made[made.len() - 1];
        assert(made.last() == made[made.len() - 1]);
        let tid = m.arena.len() as usize;
        let x = Trans { recognized: rec, key_start: col, red: o, parent, top };
        let n = earley_chart::ChartModel {
            arena: m.arena.push(x),
            trans: m.trans.update(col as int, m.trans[col as int].push((rec, tid))),
            ..m
        };
        earley_leo::lemma_linked_len(n, made.drop_last(), Some(tid), top);
        assert(m.arena.len() < usize::MAX);
        assert(link_derived(g, l, x)) by {
            assert forall|c: int|
                x.key_start <= c <= l.size && #[trigger] reading::reads(
                    g.rules,
                    g.nt,
                    l,
                    x.recognized,
                    x.key_start as int,
                    c,
                ) implies item_derived(g, l, c, x.top) && earley_chart::is_done(
                g,
                x.top,
            ) by {
                lemma_tail_derived(g, l, col as int, c, o, rec);
                let d = earley_leo::done_item(g, o);
                if let Some(t) = parent {
                    lemma_done_derived(g, l, c, d);
                    assert(link_derived(g, l, m.arena[t as int]));
                    let y = m.arena[t as int];
                    assert(reading::reads(
                        g.rules,
                        g.nt,
                        l,
                        y.recognized,
                        y.key_start as int,
                        c,
                    ));
                }
            }
        }
        assert(chart_derived(g, l, n, i)) by {
            assert forall|t: int| 0 <= t < n.arena.len() implies link_derived(
                g,
                l,
                #[trigger] n.arena[t],
            ) by {
                if t < m.arena.len() {
                    assert(link_derived(g, l, m.arena[t]));
                }
            }
            assert forall|c: int| 0 <= c < n.trans.len() implies earley_chart::row_ok(
                n,
                c,
                #[trigger] n.trans[c],
            ) by {
                assert(earley_chart::row_ok(m, c, m.trans[c]));
                assert forall|k: int| 0 <= k < n.trans[c].len() implies {
                    &&& (#[trigger] n.trans[c][k]).1 < n.arena.len()
                    &&& n.arena[n.trans[c][k].1 as int].key_start == c
                    &&& n.arena[n.trans[c][k].1 as int].recognized == n.trans[c][k].0
                } by {
                    if k < m.trans[c].len() {
                        assert(n.trans[c][k] == m.trans[c][k]);
                        assert(m.trans[c][k].1 < m.arena.len());
                    }
                }
            }
        }
        let front = made.drop_last();
        assert forall|k: int| 0 <= k < front.len() implies ({
            let (rec, col, o) = #[trigger] front[k];
            &&& item_derived(g, l, col as int, o)
            &&& earley_chart::expected(g, o) == Some(rec)
            &&& forall|j: int|
                o.dot < j < g.rules[o.rule as int].expansion.len() ==> g.eps_only[(
                #[trigger] g.rules[o.rule as int].expansion[j]).ix() as int]
            &&& k + 1 < front.len() ==> front[k + 1].0 == g.rules[o.rule as int].origin && front[k
                + 1].1 == o.origin
        }) by {
            assert(front[k] == made[k]);
        }
        assert forall|k: int| 0 <= k < front.len() implies (#[trigger] front[k]).1
            < n.columns.len() by {
            assert(front[k] == made[k]);
        }
        if front.len() > 0 {
            assert(front.last() == made[made.len() - 2]);
        }
        lemma_linked_derived(g, l, n, i, front, Some(tid), top);
    }
}

/// Looking for a chain keeps everything derived.
pub proof fn lemma_leo_derived(
    g: earley_chart::Context,
    l: reading::Reading,
    m: earley_chart::ChartModel,
    i: int,
    rec: SymbolId,
    col: usize,
    start: SymbolId,
)
    requires
        context_true(g),
        chart_derived(g, l, m, i),
        col < m.columns.len(),
        earley_leo::leo_created(g, m, rec, col, start).arena.len() <= usize::MAX,
    ensures
        chart_derived(g, l, earley_leo::leo_created(g, m, rec, col, start), i),
        earley_leo::leo_created(g, m, rec, col, start).columns == m.columns,
        earley_leo::leo_created(g, m, rec, col, start).forest == m.forest,
        earley_leo::leo_created(g, m, rec, col, start).scan == m.scan,
{
    if g.shortcuts && earley_chart::find_trans(m.trans[col as int], rec, 0) is None {
        lemma_followed_derived(
            g,
            l,
            m,
            i,
            start,
            rec,
            col,
            Seq::empty(),
            Seq::empty(),
            None,
            earley_leo::chain_limit(),
        );
        let c = earley_leo::followed(
            g,
            m,
            start,
            rec,
            col,
            Seq::empty(),
            Seq::empty(),
            None,
            earley_leo::chain_limit(),
        );
        if let Some(top) = c.top {
            assert forall|k: int| 0 <= k < c.made.len() implies (#[trigger] c.made[k]).1
                < m.columns.len() by {
                lemma_followed_cols(
                    g,
                    m,
                    start,
                    rec,
                    col,
                    Seq::empty(),
                    Seq::empty(),
                    None,
                    earley_leo::chain_limit(),
                    l,
                    i,
                );
            }
            lemma_linked_derived(g, l, m, i, c.made, c.parent, top);
        }
    }
}

proof fn lemma_followed_cols(
    g: earley_chart::Context,
    m: earley_chart::ChartModel,
    start: SymbolId,
    rec: SymbolId,
    col: usize,
    visited: Seq<(usize, SymbolId)>,
    made: Seq<(SymbolId, usize, Item)>,
    top: Option<Item>,
    fuel: nat,
    l: reading::Reading,
    i: int,
)
    requires
        chart_derived(g, l, m, i),
        col < m.columns.len(),
        forall|k: int| 0 <= k < made.len() ==> (#[trigger] made[k]).1 < m.columns.len(),
    ensures
        forall|k: int|
            0 <= k < earley_leo::followed(
                g,
                m,
                start,
                rec,
                col,
                visited,
                made,
                top,
                fuel,
            ).made.len() ==> (#[trigger] earley_leo::followed(
                g,
                m,
                start,
                rec,
                col,
                visited,
                made,
                top,
                fuel,
            ).made[k]).1 < m.columns.len(),
    decreases fuel,
{
    match earley_chart::find_trans(m.trans[col as int], rec, 0) {
        Some(t) => {},
        None => {
            let waiters = earley_chart::waiting(g, m.columns[col as int], rec);
            if fuel == 0 || visited.contains((col, rec)) || (rec == start && col == 0)
                || waiters.len() != 1 || !earley_leo::quasi_complete(g, waiters[0], start) {
            } else {
                let o = waiters[0];
                earley_chart::lemma_waiting(g, m.columns[col as int], rec);
                assert(m.columns[col as int].contains(waiters[0]));
                let q = choose|q: int|
                    0 <= q < m.columns[col as int].len() && m.columns[col as int][q] == o;
                assert(items_derived(g, l, col as int, m.columns[col as int]));
                assert(item_derived(g, l, col as int, m.columns[col as int][q]));
                lemma_followed_cols(
                    g,
                    m,
                    start,
                    g.rules[o.rule as int].origin,
                    o.origin,
                    visited.push((col, rec)),
                    made.push((rec, col, o)),
                    Some(earley_leo::done_item(g, o)),
                    (fuel - 1) as nat,
                    l,
                    i,
                );
            }
        },
    }
}

// ---------------------------------------------------------------------------
// Columns

/// Whether everything on the way to a closed column is derived.
pub open spec fn work_derived(
    g: earley_chart::Context,
    l: reading::Reading,
    w: earley_recognizer::Work,
    i: int,
) -> bool {
    &&& chart_derived(g, l, w.chart, i)
    &&& items_derived(g, l, i, w.stack)
    &&& w.held.len() == g.n
    &&& forall|s: SymbolId|
        s.ix() < g.n && #[trigger] w.held[s.ix() as int] is Some ==> analysis::nullable(
            g.rules,
            g.nt,
            s,
        )
}

/// The node of a complete item keeps everything derived.
pub proof fn lemma_node_for_derived(
    g: earley_chart::Context,
    l: reading::Reading,
    m: earley_chart::ChartModel,
    i: usize,
    item: Item,
)
    requires
        earley_chart::context_ok(g),
        chart_derived(g, l, m, i as int),
        item_derived(g, l, i as int, item),
        earley_chart::is_done(g, item),
    ensures
        chart_derived(g, l, earley_recognizer::node_for(g, m, i, item).0, i as int),
        earley_recognizer::node_for(g, m, i, item).0.columns == m.columns,
        earley_recognizer::node_for(g, m, i, item).0.arena == m.arena,
{
    lemma_done_derived(g, l, i as int, item);
    match item.node {
        ForestRef::Node(id) => {},
        _ => {
            let rule = g.rules[item.rule as int];
            let key = NodeKey::Sym(rule.origin);
            lemma_got_derived(g, l, m.forest, key, item.origin, i);
            let (f, id) = earley_forest::got(m.forest, key, item.origin, i);
            let p = earley_forest::Packed {
                rule: item.rule,
                left: ForestRef::Nothing,
                right: ForestRef::Nothing,
                right_pos: 0,
            };
            lemma_family_derived(g, l, f, id, p, rule.order);
            lemma_forest_derived(
                g,
                l,
                m,
                i as int,
                earley_forest::family_added(f, id, p, rule.order),
            );
        },
    }
}

proof fn lemma_completed_derived(
    g: earley_chart::Context,
    l: reading::Reading,
    m: earley_chart::ChartModel,
    i: usize,
    stack: Seq<Item>,
    item: Item,
    id: usize,
    start: SymbolId,
)
    requires
        context_true(g),
        chart_derived(g, l, m, i as int),
        items_derived(g, l, i as int, stack),
        item_derived(g, l, i as int, item),
        earley_chart::is_done(g, item),
        earley_recognizer::completed(g, m, i, stack, item, id, start).0.arena.len() <= usize::MAX,
    ensures
        chart_derived(
            g,
            l,
            earley_recognizer::completed(g, m, i, stack, item, id, start).0,
            i as int,
        ),
        items_derived(
            g,
            l,
            i as int,
            earley_recognizer::completed(g, m, i, stack, item, id, start).1,
        ),
{
    let s = g.rules[item.rule as int].origin;
    let j = item.origin as int;
    lemma_done_derived(g, l, i as int, item);
    let m1 = if item.origin != i {
        earley_leo::leo_created(g, m, s, item.origin, start)
    } else {
        m
    };
    lemma_completed_arena(g, m, i, stack, item, id, start);
    if item.origin != i {
        lemma_leo_derived(g, l, m, i as int, s, item.origin, start);
    }
    let shortcut = if item.origin != i {
        earley_chart::find_trans(m1.trans[j], s, 0)
    } else {
        None
    };
    match shortcut {
        Some(t) => {
            earley_leo::lemma_find_trans(m1.trans[j], s, 0);
            assert(earley_chart::row_ok(m1, j, m1.trans[j]));
            let k = choose|k: int| 0 <= k < m1.trans[j].len() && #[trigger] m1.trans[j][k] == (s, t);
            assert(m1.trans[j][k].1 < m1.arena.len());
            let x = m1.arena[t as int];
            assert(link_derived(g, l, m1.arena[t as int]));
            assert(reading::reads(
                g.rules,
                g.nt,
                l,
                x.recognized,
                x.key_start as int,
                i as int,
            ));
            let top = x.top;
            lemma_done_derived(g, l, i as int, top);
            let key = earley_chart::key_at(g, top.rule, top.dot as int);
            lemma_got_derived(g, l, m1.forest, key, top.origin, i);
            let (f, top_node) = earley_forest::got(m1.forest, key, top.origin, i);
            lemma_path_derived(g, l, f, top_node, (t, ForestRef::Node(id), i));
            let h = earley_forest::path_added(f, top_node, (t, ForestRef::Node(id), i));
            lemma_forest_derived(g, l, m1, i as int, h);
            let new = Item { node: ForestRef::Node(top_node as usize), ..top };
            assert(item_derived(g, l, i as int, new));
            lemma_entered_derived(
                g,
                l,
                earley_chart::ChartModel { forest: h, ..m1 },
                i as int,
                stack,
                new,
            );
        },
        None => {
            let column = m1.columns[j];
            let items = earley_chart::waiting(g, column, s);
            earley_chart::lemma_waiting(g, column, s);
            assert(items_derived(g, l, j, m1.columns[j]));
            assert forall|k: int| 0 <= k < items.len() implies item_derived(
                g,
                l,
                j,
                #[trigger] items[k],
            ) by {
                assert(column.contains(items[k]));
                let q = choose|q: int| 0 <= q < column.len() && column[q] == items[k];
                assert(item_derived(g, l, j, column[q]));
            }
            lemma_all_advanced_derived(
                g,
                l,
                m1,
                j,
                i,
                stack,
                items,
                s,
                ForestRef::Node(id),
            );
        },
    }
}

/// Entering and moving items makes no links.
pub proof fn lemma_all_advanced_arena(
    g: earley_chart::Context,
    m: earley_chart::ChartModel,
    i: usize,
    stack: Seq<Item>,
    items: Seq<Item>,
    right: ForestRef,
)
    ensures
        earley_chart::all_advanced(g, m, i, stack, items, right).0.arena == m.arena,
        earley_chart::all_advanced(g, m, i, stack, items, right).0.trans == m.trans,
    decreases items.len(),
{
    if items.len() > 0 {
        lemma_all_advanced_arena(g, m, i, stack, items.drop_last(), right);
    }
}

/// The links after a completion are those that were found for it.
pub proof fn lemma_completed_arena(
    g: earley_chart::Context,
    m: earley_chart::ChartModel,
    i: usize,
    stack: Seq<Item>,
    item: Item,
    id: usize,
    start: SymbolId,
)
    ensures
        ({
            let s = g.rules[item.rule as int].origin;
            let m1 = if item.origin != i {
                earley_leo::leo_created(g, m, s, item.origin, start)
            } else {
                m
            };
            let n = earley_recognizer::completed(g, m, i, stack, item, id, start).0;
            n.arena == m1.arena && n.trans == m1.trans
        }),
{
    let s = g.rules[item.rule as int].origin;
    let m1 = if item.origin != i {
        earley_leo::leo_created(g, m, s, item.origin, start)
    } else {
        m
    };
    let shortcut = if item.origin != i {
        earley_chart::find_trans(m1.trans[item.origin as int], s, 0)
    } else {
        None
    };
    if shortcut is None {
        lemma_all_advanced_arena(
            g,
            m1,
            i,
            stack,
            earley_chart::waiting(g, m1.columns[item.origin as int], s),
            ForestRef::Node(id),
        );
    }
}

/// Predicting makes no links.
pub proof fn lemma_predicted_arena(
    g: earley_chart::Context,
    m: earley_chart::ChartModel,
    i: usize,
    stack: Seq<Item>,
    s: SymbolId,
    k: nat,
)
    ensures
        earley_chart::predicted(g, m, i, stack, s, k).0.arena == m.arena,
        earley_chart::predicted(g, m, i, stack, s, k).0.trans == m.trans,
        earley_chart::predicted(g, m, i, stack, s, k).0.forest == m.forest,
    decreases k,
{
    if k > 0 {
        lemma_predicted_arena(g, m, i, stack, s, (k - 1) as nat);
    }
}

/// Processing an item keeps everything derived.
pub proof fn lemma_step_derived(
    g: earley_chart::Context,
    l: reading::Reading,
    w: earley_recognizer::Work,
    i: usize,
    start: SymbolId,
)
    requires
        context_true(g),
        work_derived(g, l, w, i as int),
        w.stack.len() > 0,
        earley_recognizer::work_step(g, w, i, start).chart.arena.len() <= usize::MAX,
    ensures
        work_derived(g, l, earley_recognizer::work_step(g, w, i, start), i as int),
{
    let item = w.stack.last();
    let rest = w.stack.drop_last();
    assert(item_derived(g, l, i as int, w.stack[w.stack.len() - 1]));
    assert forall|k: int| 0 <= k < rest.len() implies item_derived(
        g,
        l,
        i as int,
        #[trigger] rest[k],
    ) by {
        assert(item_derived(g, l, i as int, w.stack[k]));
    }
    let v = earley_recognizer::work_step(g, w, i, start);
    match earley_chart::expected(g, item) {
        None => {
            lemma_node_for_derived(g, l, w.chart, i, item);
            let (m1, id) = earley_recognizer::node_for(g, w.chart, i, item);
            lemma_completed_derived(g, l, m1, i, rest, item, id, start);
            lemma_done_derived(g, l, i as int, item);
            let s = g.rules[item.rule as int].origin;
            assert(s.ix() < g.n);
            assert forall|x: SymbolId| x.ix() < g.n && #[trigger] v.held[x.ix() as int] is Some implies
                analysis::nullable(g.rules, g.nt, x) by {
                if item.origin == i && x.ix() == s.ix() {
                    assert(x == s);
                    reading::lemma_reads_at(g.rules, g.nt, l, s, i as int);
                } else {
                    assert(w.held[x.ix() as int] is Some);
                }
            }
        },
        Some(s) => {
            if s.ix() >= g.nt {
                lemma_predicted_derived(g, l, w.chart, i, rest, s, g.rules.len());
                let (m1, s1) = earley_chart::predicted(g, w.chart, i, rest, s, g.rules.len());
                assert(s.ix() < g.n) by {
                    assert(g.rules[item.rule as int].expansion[item.dot as int].ix() < g.n);
                }
                if let Some(h) = w.held[s.ix() as int] {
                    reading::lemma_reads_nullable(g.rules, g.nt, l, s, i as int);
                    lemma_advanced_derived(
                        g,
                        l,
                        m1,
                        i as int,
                        i,
                        s1,
                        item,
                        s,
                        ForestRef::Node(h),
                    );
                }
            }
        },
    }
}

} // verus!
