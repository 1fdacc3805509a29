//! What the grammar derives, the Earley chart holds.

use vstd::prelude::*;
use crate::earley_chart;
use crate::earley_forest;
use crate::earley_forest::{ForestRef, Item, NodeKey, Trans};
use crate::earley_leo;
use crate::earley_sound;
use crate::reading;
use crate::symbols::SymbolId;

verus! {

// ---------------------------------------------------------------------------
// Growth of the chart

/// Whether an item is in column `i`, or waits for a terminal.
pub open spec fn present(m: earley_chart::ChartModel, i: int, x: Item) -> bool {
    earley_chart::has_item(m.columns[i], x) || earley_chart::has_item(m.scan, x)
}

/// The item with its dot moved over one symbol.
pub open spec fn next_item(x: Item) -> Item {
    Item { rule: x.rule, dot: (x.dot + 1) as usize, origin: x.origin, node: ForestRef::Nothing }
}

/// Whether the forest has a node with the given label.
pub open spec fn has_label(
    f: earley_forest::ForestModel,
    key: NodeKey,
    start: usize,
    end: usize,
) -> bool {
    exists|k: int|
        0 <= k < f.nodes.len() && earley_forest::labelled(#[trigger] f.nodes[k], key, start, end)
}

/// Whether every label of `f` is one of `h`.
pub open spec fn labels_kept(
    f: earley_forest::ForestModel,
    h: earley_forest::ForestModel,
) -> bool {
    forall|key: NodeKey, start: usize, end: usize|
        has_label(f, key, start, end) ==> #[trigger] has_label(h, key, start, end)
}

/// Whether `b` is `a` with more behind it.
pub open spec fn continues<T>(a: Seq<T>, b: Seq<T>) -> bool {
    a.len() <= b.len() && b.take(a.len() as int) == a
}

/// Whether `n` is `m` with more in column `i`, among the items that wait for a
/// terminal, in the forest and among the links.
pub open spec fn more_in(m: earley_chart::ChartModel, n: earley_chart::ChartModel, i: int) -> bool {
    &&& n.columns.len() == m.columns.len()
    &&& 0 <= i < m.columns.len()
    &&& forall|c: int|
        0 <= c < m.columns.len() && c != i ==> #[trigger] n.columns[c] == m.columns[c]
    &&& continues(m.columns[i], n.columns[i])
    &&& continues(m.scan, n.scan)
    &&& labels_kept(m.forest, n.forest)
    &&& continues(m.arena, n.arena)
    &&& n.trans.len() == m.trans.len()
    &&& forall|c: int|
        0 <= c < m.trans.len() ==> continues(m.trans[c], #[trigger] n.trans[c])
}

/// Whether column and items to process grew by the same items.
pub open spec fn more_work(
    m: earley_chart::ChartModel,
    s: Seq<Item>,
    n: earley_chart::ChartModel,
    t: Seq<Item>,
    i: int,
) -> bool {
    &&& more_in(m, n, i)
    &&& continues(s, t)
    &&& n.columns[i].skip(m.columns[i].len() as int) == t.skip(s.len() as int)
}

/// A list continues itself.
pub proof fn lemma_continues_refl<T>(a: Seq<T>)
    ensures
        continues(a, a),
{
    assert(a.take(a.len() as int) =~= a);
}

/// Continuing is transitive.
pub proof fn lemma_continues_trans<T>(a: Seq<T>, b: Seq<T>, c: Seq<T>)
    requires
        continues(a, b),
        continues(b, c),
    ensures
        continues(a, c),
{
    assert(c.take(a.len() as int) =~= b.take(a.len() as int));
}

/// A list with one more element continues it.
pub proof fn lemma_continues_push<T>(a: Seq<T>, x: T)
    ensures
        continues(a, a.push(x)),
{
    assert(a.push(x).take(a.len() as int) =~= a);
}

/// A continued list keeps its elements.
pub proof fn lemma_continues_index<T>(a: Seq<T>, b: Seq<T>, k: int)
    requires
        continues(a, b),
        0 <= k < a.len(),
    ensures
        b[k] == a[k],
{
    assert(b.take(a.len() as int)[k] == b[k]);
}

/// A continued list of items keeps its items.
pub proof fn lemma_has_continues(a: Seq<Item>, b: Seq<Item>, x: Item)
    requires
        continues(a, b),
        earley_chart::has_item(a, x),
    ensures
        earley_chart::has_item(b, x),
{
    let k = choose|k: int| 0 <= k < a.len() && earley_chart::same_item(#[trigger] a[k], x);
    lemma_continues_index(a, b, k);
    assert(earley_chart::same_item(b[k], x));
}

/// A chart has as much in it as itself.
pub proof fn lemma_more_refl(m: earley_chart::ChartModel, s: Seq<Item>, i: int)
    requires
        0 <= i < m.columns.len(),
    ensures
        more_work(m, s, m, s, i),
{
    lemma_continues_refl(m.columns[i]);
    lemma_continues_refl(m.scan);
    lemma_continues_refl(m.arena);
    lemma_continues_refl(s);
    assert forall|c: int| 0 <= c < m.trans.len() implies continues(
        m.trans[c],
        #[trigger] m.trans[c],
    ) by {
        lemma_continues_refl(m.trans[c]);
    }
    assert(m.columns[i].skip(m.columns[i].len() as int) =~= s.skip(s.len() as int));
}

/// Growth of the chart is transitive.
pub proof fn lemma_more_in_trans(
    m: earley_chart::ChartModel,
    n: earley_chart::ChartModel,
    o: earley_chart::ChartModel,
    i: int,
)
    requires
        more_in(m, n, i),
        more_in(n, o, i),
    ensures
        more_in(m, o, i),
{
    lemma_continues_trans(m.columns[i], n.columns[i], o.columns[i]);
    lemma_continues_trans(m.scan, n.scan, o.scan);
    lemma_continues_trans(m.arena, n.arena, o.arena);
    assert forall|c: int| 0 <= c < m.columns.len() && c != i implies #[trigger] o.columns[c]
        == m.columns[c] by {
        assert(n.columns[c] == m.columns[c]);
    }
    assert forall|c: int| 0 <= c < m.trans.len() implies continues(
        m.trans[c],
        #[trigger] o.trans[c],
    ) by {
        assert(continues(m.trans[c], n.trans[c]));
        lemma_continues_trans(m.trans[c], n.trans[c], o.trans[c]);
    }
    assert forall|key: NodeKey, start: usize, end: usize|
        has_label(m.forest, key, start, end) implies #[trigger] has_label(
        o.forest,
        key,
        start,
        end,
    ) by {
        assert(has_label(n.forest, key, start, end));
    }
}

/// Growth of chart and work is transitive.
pub proof fn lemma_more_trans(
    m: earley_chart::ChartModel,
    s: Seq<Item>,
    n: earley_chart::ChartModel,
    t: Seq<Item>,
    o: earley_chart::ChartModel,
    u: Seq<Item>,
    i: int,
)
    requires
        more_work(m, s, n, t, i),
        more_work(n, t, o, u, i),
    ensures
        more_work(m, s, o, u, i),
{
    lemma_more_in_trans(m, n, o, i);
    lemma_continues_trans(s, t, u);
    let a = m.columns[i];
    let b = n.columns[i];
    let c = o.columns[i];
    assert(b.len() - a.len() == t.len() - s.len()) by {
        assert(b.skip(a.len() as int).len() == t.skip(s.len() as int).len());
    }
    assert(c.len() - b.len() == u.len() - t.len()) by {
        assert(c.skip(b.len() as int).len() == u.skip(t.len() as int).len());
    }
    assert forall|k: int| 0 <= k < c.len() - a.len() implies c.skip(a.len() as int)[k]
        == #[trigger] u.skip(s.len() as int)[k] by {
        if k < b.len() - a.len() {
            lemma_continues_index(b, c, a.len() + k);
            lemma_continues_index(t, u, s.len() + k);
            assert(b.skip(a.len() as int)[k] == t.skip(s.len() as int)[k]);
        } else {
            let q = k - (b.len() - a.len());
            assert(c.skip(b.len() as int)[q] == u.skip(t.len() as int)[q]);
        }
    }
    assert(c.skip(a.len() as int) =~= u.skip(s.len() as int));
}

/// What is present stays present.
pub proof fn lemma_present_stays(
    m: earley_chart::ChartModel,
    n: earley_chart::ChartModel,
    i: int,
    x: Item,
)
    requires
        more_in(m, n, i),
        present(m, i, x),
    ensures
        present(n, i, x),
{
    if earley_chart::has_item(m.columns[i], x) {
        lemma_has_continues(m.columns[i], n.columns[i], x);
    } else {
        lemma_has_continues(m.scan, n.scan, x);
    }
}

// ---------------------------------------------------------------------------
// Operations

/// Entering an item adds to the chart, and the item is there.
pub proof fn lemma_entered_more(
    g: earley_chart::Context,
    m: earley_chart::ChartModel,
    i: int,
    stack: Seq<Item>,
    item: Item,
)
    requires
        0 <= i < m.columns.len(),
    ensures
        more_work(
            m,
            stack,
            earley_chart::entered(g, m, i, stack, item).0,
            earley_chart::entered(g, m, i, stack, item).1,
            i,
        ),
        present(earley_chart::entered(g, m, i, stack, item).0, i, item),
{
    let (n, s) = earley_chart::entered(g, m, i, stack, item);
    lemma_more_refl(m, stack, i);
    if earley_chart::wants_terminal(g, item) {
        if !earley_chart::has_item(m.scan, item) {
            lemma_continues_push(m.scan, item);
            assert(earley_chart::same_item(n.scan[m.scan.len() as int], item));
        }
    } else if !earley_chart::has_item(m.columns[i], item) {
        lemma_continues_push(m.columns[i], item);
        lemma_continues_push(stack, item);
        assert(earley_chart::same_item(n.columns[i][m.columns[i].len() as int], item));
        assert(n.columns[i].skip(m.columns[i].len() as int) =~= s.skip(stack.len() as int));
    }
}

/// Getting a node keeps the labels, and the label is there.
pub proof fn lemma_got_label(
    f: earley_forest::ForestModel,
    key: NodeKey,
    start: usize,
    end: usize,
)
    ensures
        labels_kept(f, earley_forest::got(f, key, start, end).0),
        has_label(earley_forest::got(f, key, start, end).0, key, start, end),
        0 <= earley_forest::got(f, key, start, end).1 < earley_forest::got(
            f,
            key,
            start,
            end,
        ).0.nodes.len(),
{
    earley_forest::lemma_find_node(f.nodes, key, start, end, 0);
    let (h, id) = earley_forest::got(f, key, start, end);
    assert(earley_forest::labelled(h.nodes[id], key, start, end));
    assert forall|k: NodeKey, s: usize, e: usize| has_label(f, k, s, e) implies
        #[trigger] has_label(h, k, s, e) by {
        let q = choose|q: int|
            0 <= q < f.nodes.len() && earley_forest::labelled(#[trigger] f.nodes[q], k, s, e);
        assert(h.nodes[q] == f.nodes[q]);
    }
}

/// A forest whose nodes keep their labels keeps them all.
pub proof fn lemma_updated_labels(
    f: earley_forest::ForestModel,
    h: earley_forest::ForestModel,
)
    requires
        f.nodes.len() <= h.nodes.len(),
        forall|k: int|
            0 <= k < f.nodes.len() ==> earley_forest::labelled(
                #[trigger] h.nodes[k],
                f.nodes[k].key,
                f.nodes[k].start,
                f.nodes[k].end,
            ),
    ensures
        labels_kept(f, h),
{
    assert forall|k: NodeKey, s: usize, e: usize| has_label(f, k, s, e) implies
        #[trigger] has_label(h, k, s, e) by {
        let q = choose|q: int|
            0 <= q < f.nodes.len() && earley_forest::labelled(#[trigger] f.nodes[q], k, s, e);
        assert(earley_forest::labelled(h.nodes[q], k, s, e));
    }
}

/// Keeping labels is transitive.
pub proof fn lemma_labels_trans(
    f: earley_forest::ForestModel,
    g: earley_forest::ForestModel,
    h: earley_forest::ForestModel,
)
    requires
        labels_kept(f, g),
        labels_kept(g, h),
    ensures
        labels_kept(f, h),
{
    assert forall|k: NodeKey, s: usize, e: usize| has_label(f, k, s, e) implies
        #[trigger] has_label(h, k, s, e) by {
        assert(has_label(g, k, s, e));
    }
}

/// Moving an item makes a node for it.
pub proof fn lemma_moved_label(
    g: earley_chart::Context,
    f: earley_forest::ForestModel,
    o: Item,
    right: ForestRef,
    end: usize,
)
    ensures
        labels_kept(f, earley_chart::moved(g, f, o, right, end).0),
        has_label(
            earley_chart::moved(g, f, o, right, end).0,
            earley_chart::key_at(g, o.rule, o.dot + 1),
            o.origin,
            end,
        ),
{
    let key = earley_chart::key_at(g, o.rule, o.dot + 1);
    lemma_got_label(f, key, o.origin, end);
    let (f1, id) = earley_forest::got(f, key, o.origin, end);
    let h = earley_chart::moved(g, f, o, right, end).0;
    lemma_updated_labels(f1, h);
    lemma_labels_trans(f, f1, h);
}

/// Whether the items of a column that have derived something have a node.
pub open spec fn items_labelled(
    g: earley_chart::Context,
    f: earley_forest::ForestModel,
    s: Seq<Item>,
    i: usize,
) -> bool {
    forall|k: int|
        0 <= k < s.len() && (#[trigger] s[k]).node is Node ==> has_label(
            f,
            earley_chart::key_at(g, s[k].rule, s[k].dot as int),
            s[k].origin,
            i,
        )
}

/// Items keep their nodes as the forest grows.
pub proof fn lemma_items_labelled_more(
    g: earley_chart::Context,
    f: earley_forest::ForestModel,
    h: earley_forest::ForestModel,
    s: Seq<Item>,
    i: usize,
)
    requires
        items_labelled(g, f, s, i),
        labels_kept(f, h),
    ensures
        items_labelled(g, h, s, i),
{
    assert forall|k: int| 0 <= k < s.len() && (#[trigger] s[k]).node is Node implies has_label(
        h,
        earley_chart::key_at(g, s[k].rule, s[k].dot as int),
        s[k].origin,
        i,
    ) by {
        assert(has_label(
            f,
            earley_chart::key_at(g, s[k].rule, s[k].dot as int),
            s[k].origin,
            i,
        ));
    }
}

/// A larger forest adds to the chart.
pub proof fn lemma_forest_more(
    m: earley_chart::ChartModel,
    f: earley_forest::ForestModel,
    s: Seq<Item>,
    i: int,
)
    requires
        0 <= i < m.columns.len(),
        labels_kept(m.forest, f),
    ensures
        more_work(m, s, (earley_chart::ChartModel { forest: f, ..m }), s, i),
{
    lemma_more_refl(m, s, i);
    let n = earley_chart::ChartModel { forest: f, ..m };
    assert forall|c: int| 0 <= c < m.trans.len() implies continues(
        m.trans[c],
        #[trigger] n.trans[c],
    ) by {
        lemma_continues_refl(m.trans[c]);
    }
}

/// Entering an item that has its node keeps the column labelled.
pub proof fn lemma_entered_labelled(
    g: earley_chart::Context,
    m: earley_chart::ChartModel,
    i: usize,
    stack: Seq<Item>,
    item: Item,
)
    requires
        i < m.columns.len(),
        items_labelled(g, m.forest, m.columns[i as int], i),
        item.node is Node ==> has_label(
            m.forest,
            earley_chart::key_at(g, item.rule, item.dot as int),
            item.origin,
            i,
        ),
    ensures
        ({
            let n = earley_chart::entered(g, m, i as int, stack, item).0;
            items_labelled(g, n.forest, n.columns[i as int], i)
        }),
{
}

/// Moving an item adds to the chart, and the moved item is there.
pub proof fn lemma_advanced_more(
    g: earley_chart::Context,
    m: earley_chart::ChartModel,
    i: usize,
    stack: Seq<Item>,
    o: Item,
    right: ForestRef,
)
    requires
        i < m.columns.len(),
        o.dot < g.rules[o.rule as int].expansion.len() <= usize::MAX,
        items_labelled(g, m.forest, m.columns[i as int], i),
    ensures
        more_work(
            m,
            stack,
            earley_chart::advanced(g, m, i, stack, o, right).0,
            earley_chart::advanced(g, m, i, stack, o, right).1,
            i as int,
        ),
        present(
            earley_chart::advanced(g, m, i, stack, o, right).0,
            i as int,
            next_item(o),
        ),
        ({
            let n = earley_chart::advanced(g, m, i, stack, o, right).0;
            items_labelled(g, n.forest, n.columns[i as int], i)
        }),
{
    let (f, item) = earley_chart::moved(g, m.forest, o, right, i);
    let m1 = earley_chart::ChartModel { forest: f, ..m };
    lemma_moved_label(g, m.forest, o, right, i);
    lemma_forest_more(m, f, stack, i as int);
    lemma_entered_more(g, m1, i as int, stack, item);
    let (n, s) = earley_chart::entered(g, m1, i as int, stack, item);
    lemma_more_trans(m, stack, m1, stack, n, s, i as int);
    lemma_items_labelled_more(g, m.forest, f, m.columns[i as int], i);
    lemma_entered_labelled(g, m1, i, stack, item);
    lemma_same_present(n, i as int, item, next_item(o));
}

/// An item is there where the same item is.
pub proof fn lemma_same_present(m: earley_chart::ChartModel, i: int, x: Item, y: Item)
    requires
        present(m, i, x),
        earley_chart::same_item(x, y),
    ensures
        present(m, i, y),
{
    if earley_chart::has_item(m.columns[i], x) {
        lemma_same_has(m.columns[i], x, y);
    } else {
        lemma_same_has(m.scan, x, y);
    }
}

/// An item is there under whatever it has derived.
pub proof fn lemma_same_has(s: Seq<Item>, x: Item, y: Item)
    requires
        earley_chart::has_item(s, x),
        earley_chart::same_item(x, y),
    ensures
        earley_chart::has_item(s, y),
{
    let k = choose|k: int| 0 <= k < s.len() && earley_chart::same_item(#[trigger] s[k], x);
    assert(earley_chart::same_item(s[k], y));
}

/// Moving items adds to the chart, and each moved item is there.
pub proof fn lemma_all_advanced_more(
    g: earley_chart::Context,
    m: earley_chart::ChartModel,
    i: usize,
    stack: Seq<Item>,
    items: Seq<Item>,
    right: ForestRef,
)
    requires
        i < m.columns.len(),
        items_labelled(g, m.forest, m.columns[i as int], i),
        forall|k: int|
            0 <= k < items.len() ==> (#[trigger] items[k]).dot
                < g.rules[items[k].rule as int].expansion.len() <= usize::MAX,
    ensures
        more_work(
            m,
            stack,
            earley_chart::all_advanced(g, m, i, stack, items, right).0,
            earley_chart::all_advanced(g, m, i, stack, items, right).1,
            i as int,
        ),
        forall|k: int|
            0 <= k < items.len() ==> present(
                earley_chart::all_advanced(g, m, i, stack, items, right).0,
                i as int,
                next_item(#[trigger] items[k]),
            ),
        ({
            let n = earley_chart::all_advanced(g, m, i, stack, items, right).0;
            items_labelled(g, n.forest, n.columns[i as int], i)
        }),
    decreases items.len(),
{
    if items.len() == 0 {
        lemma_more_refl(m, stack, i as int);
    } else {
        let front = items.drop_last();
        assert forall|k: int| 0 <= k < front.len() implies (#[trigger] front[k]).dot
            < g.rules[front[k].rule as int].expansion.len() <= usize::MAX by {
            assert(front[k] == items[k]);
        }
        lemma_all_advanced_more(g, m, i, stack, front, right);
        let (m1, s1) = earley_chart::all_advanced(g, m, i, stack, front, right);
        let o = items[items.len() - 1];
        assert(items.last() == o);
        lemma_advanced_more(g, m1, i, s1, o, right);
        let (n, s) = earley_chart::advanced(g, m1, i, s1, o, right);
        lemma_more_trans(m, stack, m1, s1, n, s, i as int);
        assert forall|k: int| 0 <= k < items.len() implies present(
            n,
            i as int,
            next_item(#[trigger] items[k]),
        ) by {
            if k < front.len() {
                assert(front[k] == items[k]);
                assert(present(m1, i as int, next_item(front[k])));
                lemma_present_stays(m1, n, i as int, next_item(items[k]));
            }
        }
    }
}

/// Entering the rules of a symbol makes them present.
pub proof fn lemma_predicted_more(
    g: earley_chart::Context,
    m: earley_chart::ChartModel,
    i: usize,
    stack: Seq<Item>,
    s: SymbolId,
    k: nat,
)
    requires
        i < m.columns.len(),
        items_labelled(g, m.forest, m.columns[i as int], i),
        k <= g.rules.len(),
    ensures
        more_work(
            m,
            stack,
            earley_chart::predicted(g, m, i, stack, s, k).0,
            earley_chart::predicted(g, m, i, stack, s, k).1,
            i as int,
        ),
        forall|r: int|
            0 <= r < k && (#[trigger] g.rules[r]).origin == s ==> present(
                earley_chart::predicted(g, m, i, stack, s, k).0,
                i as int,
                earley_chart::fresh(r, i),
            ),
        ({
            let n = earley_chart::predicted(g, m, i, stack, s, k).0;
            items_labelled(g, n.forest, n.columns[i as int], i)
        }),
    decreases k,
{
    if k == 0 {
        lemma_more_refl(m, stack, i as int);
    } else {
        lemma_predicted_more(g, m, i, stack, s, (k - 1) as nat);
        let (m1, s1) = earley_chart::predicted(g, m, i, stack, s, (k - 1) as nat);
        let x = earley_chart::fresh(k - 1, i);
        if g.rules[k - 1].origin == s {
            lemma_entered_more(g, m1, i as int, s1, x);
            let (n, t) = earley_chart::entered(g, m1, i as int, s1, x);
            lemma_more_trans(m, stack, m1, s1, n, t, i as int);
            lemma_entered_labelled(g, m1, i, s1, x);
            assert forall|r: int| 0 <= r < k && (#[trigger] g.rules[r]).origin == s implies present(
                n,
                i as int,
                earley_chart::fresh(r, i),
            ) by {
                if r < k - 1 {
                    lemma_present_stays(m1, n, i as int, earley_chart::fresh(r, i));
                }
            }
        }
    }
}

// ---------------------------------------------------------------------------
// Links

/// Whether a link is what it is meant to be: the only item that waits for its
/// symbol is as good as complete, and the link leads on to the link of the
/// symbol that this item produces, or to the complete item. Links begin before
/// column `i`.
pub open spec fn link_true(
    g: earley_chart::Context,
    m: earley_chart::ChartModel,
    start: SymbolId,
    i: int,
    t: int,
) -> bool {
    let x = m.arena[t];
    let e = g.rules[x.red.rule as int].expansion;
    &&& x.key_start < i <= m.columns.len()
    &&& earley_chart::waiting(g, m.columns[x.key_start as int], x.recognized) == seq![x.red]
    &&& forall|j: int| x.red.dot < j < e.len() ==> g.eps_only[(#[trigger] e[j]).ix() as int]
    &&& !(x.recognized == start && x.key_start == 0)
    &&& earley_chart::find_trans(m.trans[x.key_start as int], x.recognized, 0) == Some(t as usize)
    &&& match x.parent {
        Some(p) => {
            &&& p < t
            &&& m.arena[p as int].recognized == g.rules[x.red.rule as int].origin
            &&& m.arena[p as int].key_start == x.red.origin
            &&& m.arena[p as int].top == x.top
        },
        None => x.top == earley_leo::done_item(g, x.red),
    }
}

/// Whether every link is what it is meant to be.
pub open spec fn links_true(
    g: earley_chart::Context,
    m: earley_chart::ChartModel,
    start: SymbolId,
    i: int,
) -> bool {
    forall|t: int| 0 <= t < m.arena.len() ==> #[trigger] link_true(g, m, start, i, t)
}

/// A continued row keeps the link that is found.
pub proof fn lemma_find_trans_continues(
    a: Seq<(SymbolId, usize)>,
    b: Seq<(SymbolId, usize)>,
    s: SymbolId,
    from: int,
)
    requires
        continues(a, b),
        0 <= from,
        earley_chart::find_trans(a, s, from) is Some,
    ensures
        earley_chart::find_trans(b, s, from) == earley_chart::find_trans(a, s, from),
    decreases a.len() - from,
{
    if from < a.len() {
        lemma_continues_index(a, b, from);
        if a[from].0 != s {
            lemma_find_trans_continues(a, b, s, from + 1);
        }
    }
}

/// A link entered for a new symbol is found.
pub proof fn lemma_find_trans_pushed(
    a: Seq<(SymbolId, usize)>,
    s: SymbolId,
    t: usize,
    from: int,
)
    requires
        0 <= from <= a.len(),
        earley_chart::find_trans(a, s, from) is None,
    ensures
        earley_chart::find_trans(a.push((s, t)), s, from) == Some(t),
    decreases a.len() - from,
{
    if from < a.len() {
        lemma_find_trans_pushed(a, s, t, from + 1);
    }
}

/// Whether a chain that is being made is what it is meant to be.
pub open spec fn chain_true(
    g: earley_chart::Context,
    m: earley_chart::ChartModel,
    start: SymbolId,
    i: int,
    made: Seq<(SymbolId, usize, Item)>,
) -> bool {
    forall|k: int|
        0 <= k < made.len() ==> {
            let (rec, col, o) = #[trigger] made[k];
            let e = g.rules[o.rule as int].expansion;
            &&& col < i <= m.columns.len()
            &&& earley_chart::waiting(g, m.columns[col as int], rec) == seq![o]
            &&& forall|j: int| o.dot < j < e.len() ==> g.eps_only[(#[trigger] e[j]).ix() as int]
            &&& !(rec == start && col == 0)
            &&& earley_chart::find_trans(m.trans[col as int], rec, 0) is None
            &&& k + 1 < made.len() ==> made[k + 1].0 == g.rules[o.rule as int].origin && made[k
                + 1].1 == o.origin
        }
}

/// Whether the links of a chain are for different symbols and columns.
pub open spec fn chain_distinct(made: Seq<(SymbolId, usize, Item)>) -> bool {
    forall|a: int, b: int|
        0 <= a < b < made.len() ==> !((#[trigger] made[a]).0 == (#[trigger] made[b]).0 && made[a].1
            == made[b].1)
}

/// The chain that is followed is what it is meant to be.
pub proof fn lemma_followed_true(
    g: earley_chart::Context,
    l: reading::Reading,
    m: earley_chart::ChartModel,
    i: int,
    start: SymbolId,
    rec: SymbolId,
    col: usize,
    visited: Seq<(usize, SymbolId)>,
    made: Seq<(SymbolId, usize, Item)>,
    top: Option<Item>,
    fuel: nat,
)
    requires
        earley_sound::chart_derived(g, l, m, i),
        col < i,
        chain_true(g, m, start, i, made),
        chain_distinct(made),
        forall|k: int|
            0 <= k < made.len() ==> visited.contains(((#[trigger] made[k]).1, made[k].0)),
        made.len() > 0 ==> {
            let o = made.last().2;
            &&& rec == g.rules[o.rule as int].origin
            &&& col == o.origin
            &&& top == Some(earley_leo::done_item(g, o))
        },
        made.len() == 0 ==> top is None,
    ensures
        ({
            let c = earley_leo::followed(g, m, start, rec, col, visited, made, top, fuel);
            &&& chain_true(g, m, start, i, c.made)
            &&& chain_distinct(c.made)
            &&& match c.parent {
                Some(t) => {
                    &&& t < m.arena.len()
                    &&& c.top == Some(m.arena[t as int].top)
                    &&& c.made.len() > 0 ==> {
                        let o = c.made.last().2;
                        &&& m.arena[t as int].recognized == g.rules[o.rule as int].origin
                        &&& m.arena[t as int].key_start == o.origin
                    }
                },
                None => {
                    &&& c.made.len() > 0 ==> c.top == Some(
                        earley_leo::done_item(g, c.made.last().2),
                    )
                    &&& c.made.len() == 0 ==> c.top is None
                },
            }
        }),
    decreases fuel,
{
    earley_leo::lemma_find_trans(m.trans[col as int], rec, 0);
    match earley_chart::find_trans(m.trans[col as int], rec, 0) {
        Some(t) => {
            assert(earley_chart::row_ok(m, col as int, m.trans[col as int]));
            let k = choose|k: int|
                0 <= k < m.trans[col as int].len() && #[trigger] m.trans[col as int][k] == (rec, t);
            assert(m.trans[col as int][k].1 < m.arena.len());
        },
        None => {
            let waiters = earley_chart::waiting(g, m.columns[col as int], rec);
            if fuel == 0 || visited.contains((col, rec)) || (rec == start && col == 0)
                || waiters.len() != 1 || !earley_leo::quasi_complete(g, waiters[0], start) {
            } else {
                let o = waiters[0];
                earley_chart::lemma_waiting(g, m.columns[col as int], rec);
                assert(m.columns[col as int].contains(waiters[0]));
                let q = choose|q: int|
                    0 <= q < m.columns[col as int].len() && m.columns[col as int][q] == o;
                assert(earley_sound::items_derived(g, l, col as int, m.columns[col as int]));
                assert(earley_sound::item_derived(
                    g,
                    l,
                    col as int,
                    m.columns[col as int][q],
                ));
                assert(waiters =~= seq![o]);
                let more = made.push((rec, col, o));
                let seen = visited.push((col, rec));
                assert forall|k: int| 0 <= k < more.len() implies ({
                    let (rec, col, o) = #[trigger] more[k];
                    let e = g.rules[o.rule as int].expansion;
                    &&& col < i <= m.columns.len()
                    &&& earley_chart::waiting(g, m.columns[col as int], rec) == seq![o]
                    &&& forall|j: int|
                        o.dot < j < e.len() ==> g.eps_only[(#[trigger] e[j]).ix() as int]
                    &&& !(rec == start && col == 0)
                    &&& earley_chart::find_trans(m.trans[col as int], rec, 0) is None
                    &&& k + 1 < more.len() ==> more[k + 1].0 == g.rules[o.rule as int].origin
                        && more[k + 1].1 == o.origin
                }) by {
                    if k < made.len() {
                        assert(more[k] == made[k]);
                        if k + 1 < made.len() {
                            assert(more[k + 1] == made[k + 1]);
                        } else {
                            assert(made.last() == made[k]);
                        }
                    }
                }
                assert forall|k: int| 0 <= k < more.len() implies seen.contains((
                    (#[trigger] more[k]).1,
                    more[k].0,
                )) by {
                    if k < made.len() {
                        assert(more[k] == made[k]);
                        assert(visited.contains((made[k].1, made[k].0)));
                        let p = choose|p: int|
                            0 <= p < visited.len() && visited[p] == (made[k].1, made[k].0);
                        assert(seen[p] == visited[p]);
                    } else {
                        assert(seen[visited.len() as int] == (col, rec));
                    }
                }
                assert forall|a: int, b: int| 0 <= a < b < more.len() implies !((
                #[trigger] more[a]).0 == (#[trigger] more[b]).0 && more[a].1 == more[b].1) by {
                    if b < made.len() {
                        assert(more[a] == made[a] && more[b] == made[b]);
                    } else {
                        assert(more[a] == made[a]);
                        assert(visited.contains((made[a].1, made[a].0)));
                    }
                }
                lemma_followed_true(
                    g,
                    l,
                    m,
                    i,
                    start,
                    g.rules[o.rule as int].origin,
                    o.origin,
                    seen,
                    more,
                    Some(earley_leo::done_item(g, o)),
                    (fuel - 1) as nat,
                );
            }
        },
    }
}

/// Entering the links of a chain keeps every link what it is meant to be.
pub proof fn lemma_linked_true(
    g: earley_chart::Context,
    m: earley_chart::ChartModel,
    start: SymbolId,
    i: int,
    made: Seq<(SymbolId, usize, Item)>,
    parent: Option<usize>,
    top: Item,
)
    requires
        links_true(g, m, start, i),
        0 <= i < m.columns.len(),
        m.trans.len() == m.columns.len(),
        chain_true(g, m, start, i, made),
        chain_distinct(made),
        earley_leo::linked(m, made, parent, top).arena.len() <= usize::MAX,
        made.len() > 0 ==> match parent {
            Some(t) => {
                let o = made.last().2;
                &&& t < m.arena.len()
                &&& top == m.arena[t as int].top
                &&& m.arena[t as int].recognized == g.rules[o.rule as int].origin
                &&& m.arena[t as int].key_start == o.origin
            },
            None => top == earley_leo::done_item(g, made.last().2),
        },
    ensures
        links_true(g, earley_leo::linked(m, made, parent, top), start, i),
        more_in(m, earley_leo::linked(m, made, parent, top), i),
    decreases made.len(),
{
    lemma_more_refl(m, Seq::empty(), i);
    if made.len() > 0 {
        let (rec, col, o) = made[made.len() - 1];
        assert(made.last() == made[made.len() - 1]);
        let tid = m.arena.len() as usize;
        let x = Trans { recognized: rec, key_start: col, red: o, parent, top };
        let n = earley_chart::ChartModel {
            arena: m.arena.push(x),
            trans: m.trans.update(col as int, m.trans[col as int].push((rec, tid))),
            ..m
        };
        earley_leo::lemma_linked_len(n, made.drop_last(), Some(tid), top);
        assert(m.arena.len() < usize::MAX);
        lemma_continues_push(m.arena, x);
        assert forall|c: int| 0 <= c < m.trans.len() implies continues(
            m.trans[c],
            #[trigger] n.trans[c],
        ) by {
            lemma_continues_refl(m.trans[c]);
            lemma_continues_push(m.trans[c], (rec, tid));
        }
        assert(more_in(m, n, i));
        assert forall|t: int| 0 <= t < n.arena.len() implies #[trigger] link_true(
            g,
            n,
            start,
            i,
            t,
        ) by {
            if t < m.arena.len() {
                assert(link_true(g, m, start, i, t));
                let y = m.arena[t];
                assert(n.arena[t] == y);
                assert(continues(
                    m.trans[y.key_start as int],
                    n.trans[y.key_start as int],
                ));
                lemma_find_trans_continues(
                    m.trans[y.key_start as int],
                    n.trans[y.key_start as int],
                    y.recognized,
                    0,
                );
                if let Some(p) = y.parent {
                    assert(n.arena[p as int] == m.arena[p as int]);
                }
            } else {
                assert(n.arena[t] == x);
                lemma_find_trans_pushed(m.trans[col as int], rec, tid, 0);
                if let Some(p) = parent {
                    assert(n.arena[p as int] == m.arena[p as int]);
                }
            }
        }
        let front = made.drop_last();
        assert forall|k: int| 0 <= k < front.len() implies ({
            let (rec, col, o) = #[trigger] front[k];
            let e = g.rules[o.rule as int].expansion;
            &&& col < i <= n.columns.len()
            &&& earley_chart::waiting(g, n.columns[col as int], rec) == seq![o]
            &&& forall|j: int| o.dot < j < e.len() ==> g.eps_only[(#[trigger] e[j]).ix() as int]
            &&& !(rec == start && col == 0)
            &&& earley_chart::find_trans(n.trans[col as int], rec, 0) is None
            &&& k + 1 < front.len() ==> front[k + 1].0 == g.rules[o.rule as int].origin && front[k
                + 1].1 == o.origin
        }) by {
            assert(front[k] == made[k]);
            let (r2, c2, o2) = made[k];
            if c2 == col {
                assert(!(made[k].0 == made[made.len() - 1].0 && made[k].1 == made[made.len()
                    - 1].1));
                lemma_find_trans_other(m.trans[col as int], r2, rec, tid, 0);
            }
        }
        assert forall|a: int, b: int| 0 <= a < b < front.len() implies !((
        #[trigger] front[a]).0 == (#[trigger] front[b]).0 && front[a].1 == front[b].1) by {
            assert(front[a] == made[a] && front[b] == made[b]);
        }
        if front.len() > 0 {
            assert(front.last() == made[made.len() - 2]);
        }
        lemma_linked_true(g, n, start, i, front, Some(tid), top);
        lemma_more_in_trans(m, n, earley_leo::linked(n, front, Some(tid), top), i);
    }
}

/// A link entered for one symbol leaves those of others.
pub proof fn lemma_find_trans_other(
    a: Seq<(SymbolId, usize)>,
    s: SymbolId,
    r: SymbolId,
    t: usize,
    from: int,
)
    requires
        0 <= from <= a.len(),
        s != r,
        earley_chart::find_trans(a, s, from) is None,
    ensures
        earley_chart::find_trans(a.push((r, t)), s, from) is None,
    decreases a.len() - from,
{
    if from < a.len() {
        lemma_find_trans_other(a, s, r, t, from + 1);
    } else {
        let b = a.push((r, t));
        assert(earley_chart::find_trans(b, s, from + 1) is None);
    }
}

/// Looking for a chain keeps every link what it is meant to be.
pub proof fn lemma_leo_true(
    g: earley_chart::Context,
    l: reading::Reading,
    m: earley_chart::ChartModel,
    i: int,
    rec: SymbolId,
    col: usize,
    start: SymbolId,
)
    requires
        earley_sound::chart_derived(g, l, m, i),
        links_true(g, m, start, i),
        col < i,
        earley_leo::leo_created(g, m, rec, col, start).arena.len() <= usize::MAX,
    ensures
        links_true(g, earley_leo::leo_created(g, m, rec, col, start), start, i),
        more_in(m, earley_leo::leo_created(g, m, rec, col, start), i),
        earley_leo::leo_created(g, m, rec, col, start).columns == m.columns,
        earley_leo::leo_created(g, m, rec, col, start).forest == m.forest,
        earley_leo::leo_created(g, m, rec, col, start).scan == m.scan,
{
    lemma_more_refl(m, Seq::empty(), i);
    if g.shortcuts && earley_chart::find_trans(m.trans[col as int], rec, 0) is None {
        let e = Seq::<(SymbolId, usize, Item)>::empty();
        lemma_followed_true(
            g,
            l,
            m,
            i,
            start,
            rec,
            col,
            Seq::empty(),
            e,
            None,
            earley_leo::chain_limit(),
        );
        let c = earley_leo::followed(
            g,
            m,
            start,
            rec,
            col,
            Seq::empty(),
            e,
            None,
            earley_leo::chain_limit(),
        );
        if let Some(top) = c.top {
            lemma_linked_true(g, m, start, i, c.made, c.parent, top);
            lemma_linked_rest(m, c.made, c.parent, top);
        }
    }
}

/// Entering links leaves the columns and the forest as they are.
pub proof fn lemma_linked_rest(
    m: earley_chart::ChartModel,
    made: Seq<(SymbolId, usize, Item)>,
    parent: Option<usize>,
    top: Item,
)
    ensures
        earley_leo::linked(m, made, parent, top).columns == m.columns,
        earley_leo::linked(m, made, parent, top).forest == m.forest,
        earley_leo::linked(m, made, parent, top).scan == m.scan,
    decreases made.len(),
{
    if made.len() > 0 {
        let (rec, col, o) = made.last();
        let tid = m.arena.len() as usize;
        lemma_linked_rest(
            earley_chart::ChartModel {
                arena: m.arena.push(
                    Trans { recognized: rec, key_start: col, red: o, parent, top },
                ),
                trans: m.trans.update(col as int, m.trans[col as int].push((rec, tid))),
                ..m
            },
            made.drop_last(),
            Some(tid),
            top,
        );
    }
}

/// Entering links leaves the forest and the columns alone.
pub proof fn lemma_leo_forest(
    g: earley_chart::Context,
    m: earley_chart::ChartModel,
    rec: SymbolId,
    col: usize,
    start: SymbolId,
)
    ensures
        earley_leo::leo_created(g, m, rec, col, start).forest == m.forest,
        earley_leo::leo_created(g, m, rec, col, start).columns == m.columns,
{
    if earley_chart::find_trans(m.trans[col as int], rec, 0) is None {
        let c = earley_leo::followed(
            g,
            m,
            start,
            rec,
            col,
            Seq::empty(),
            Seq::empty(),
            None,
            earley_leo::chain_limit(),
        );
        if let Some(top) = c.top {
            lemma_linked_rest(m, c.made, c.parent, top);
        }
    }
}

} // verus!
