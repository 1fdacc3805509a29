//! The chart of the Earley parser: columns of items, the items that wait for a
//! terminal, the forest, and the shortcuts for chains of completions.

use vstd::prelude::*;
use crate::earley_forest;
use crate::earley_forest::{Forest, ForestRef, Item, NodeKey, Packed, Trans};
use crate::symbols;
use crate::symbols::{CompiledGrammar, SymbolId};

verus! {

// ---------------------------------------------------------------------------
// The grammar as the chart sees it

/// A grammar with what the parser knows of its symbols.
pub ghost struct Context {
    pub rules: Seq<symbols::RuleModel>,
    /// How many ids are terminals.
    pub nt: nat,
    /// How many ids there are.
    pub n: nat,
    pub nullable: Seq<bool>,
    pub eps_only: Seq<bool>,
    /// Whether chains of completions are taken by their shortcuts.
    pub shortcuts: bool,
}

/// Whether the context's parts fit together.
pub open spec fn context_ok(g: Context) -> bool {
    &&& g.nt <= g.n <= u32::MAX
    &&& g.rules.len() <= usize::MAX
    &&& g.nullable.len() == g.n
    &&& g.eps_only.len() == g.n
    &&& forall|r: int|
        0 <= r < g.rules.len() ==> g.nt <= (#[trigger] g.rules[r]).origin.ix() < g.n
            && g.rules[r].expansion.len() <= usize::MAX
    &&& forall|r: int, j: int|
        0 <= r < g.rules.len() && 0 <= j < g.rules[r].expansion.len() ==> (
        #[trigger] g.rules[r].expansion[j]).ix() < g.n
}

/// The symbol after the dot.
pub open spec fn expected(g: Context, item: Item) -> Option<SymbolId> {
    if item.dot < g.rules[item.rule as int].expansion.len() {
        Some(g.rules[item.rule as int].expansion[item.dot as int])
    } else {
        None
    }
}

/// Whether the dot stands at the end.
pub open spec fn is_done(g: Context, item: Item) -> bool {
    item.dot >= g.rules[item.rule as int].expansion.len()
}

/// Whether the symbol after the dot is a terminal.
pub open spec fn wants_terminal(g: Context, item: Item) -> bool {
    match expected(g, item) {
        Some(s) => s.ix() < g.nt,
        None => false,
    }
}

/// What a rule up to a position stands for.
pub open spec fn key_at(g: Context, rule: usize, dot: int) -> NodeKey {
    if dot >= g.rules[rule as int].expansion.len() {
        NodeKey::Sym(g.rules[rule as int].origin)
    } else {
        NodeKey::Inter(rule, dot as usize)
    }
}

// ---------------------------------------------------------------------------
// The chart

/// The mathematical content of a chart.
pub ghost struct ChartModel {
    pub columns: Seq<Seq<Item>>,
    pub scan: Seq<Item>,
    pub forest: earley_forest::ForestModel,
    pub trans: Seq<Seq<(SymbolId, usize)>>,
    pub arena: Seq<Trans>,
}

/// The state of a parse.
#[derive(Debug)]
pub struct Chart {
    pub columns: Vec<Vec<Item>>,
    pub to_scan: Vec<Item>,
    pub forest: Forest,
    pub transitives: Vec<Vec<(SymbolId, usize)>>,
    pub arena: Vec<Trans>,
}

/// The contents of a list of columns.
pub open spec fn rows<T>(s: Seq<Vec<T>>) -> Seq<Seq<T>> {
    Seq::new(s.len(), |i: int| s[i]@)
}

impl View for Chart {
    type V = ChartModel;

    open spec fn view(&self) -> ChartModel {
        ChartModel {
            columns: rows(self.columns@),
            scan: self.to_scan@,
            forest: self.forest@,
            trans: rows(self.transitives@),
            arena: self.arena@,
        }
    }
}

/// Whether two items have the same rule, dot and origin.
pub open spec fn same_item(a: Item, b: Item) -> bool {
    a.rule == b.rule && a.dot == b.dot && a.origin == b.origin
}

/// Whether an item is among `s`, whatever it has derived.
pub open spec fn has_item(s: Seq<Item>, item: Item) -> bool {
    exists|i: int| 0 <= i < s.len() && same_item(#[trigger] s[i], item)
}

/// The items with one more, unless it is there.
pub open spec fn item_added(s: Seq<Item>, item: Item) -> Seq<Item> {
    if has_item(s, item) {
        s
    } else {
        s.push(item)
    }
}

/// The chart and the items to process once an item is entered in column `i`,
/// or among those that wait for a terminal.
pub open spec fn entered(
    g: Context,
    m: ChartModel,
    i: int,
    stack: Seq<Item>,
    item: Item,
) -> (ChartModel, Seq<Item>) {
    if wants_terminal(g, item) {
        (ChartModel { scan: item_added(m.scan, item), ..m }, stack)
    } else if has_item(m.columns[i], item) {
        (m, stack)
    } else {
        (
            ChartModel { columns: m.columns.update(i, m.columns[i].push(item)), ..m },
            stack.push(item),
        )
    }
}

/// The family by which an item is moved over the symbol after its dot.
pub open spec fn moved_family(o: Item, right: ForestRef) -> Packed {
    Packed { rule: o.rule, left: o.node, right, right_pos: o.dot }
}

/// The forest, and the item, once an item is moved over the symbol after its
/// dot.
pub open spec fn moved(
    g: Context,
    f: earley_forest::ForestModel,
    o: Item,
    right: ForestRef,
    end: usize,
) -> (earley_forest::ForestModel, Item) {
    let (f1, id) = earley_forest::got(f, key_at(g, o.rule, o.dot + 1), o.origin, end);
    (
        earley_forest::family_added(
            f1,
            id,
            moved_family(o, right),
            g.rules[o.rule as int].order,
        ),
        Item {
            rule: o.rule,
            dot: (o.dot + 1) as usize,
            origin: o.origin,
            node: ForestRef::Node(id as usize),
        },
    )
}

/// The chart and the items to process once an item is moved over the symbol
/// after its dot, and entered in column `i`.
pub open spec fn advanced(
    g: Context,
    m: ChartModel,
    i: usize,
    stack: Seq<Item>,
    o: Item,
    right: ForestRef,
) -> (ChartModel, Seq<Item>) {
    let (f, item) = moved(g, m.forest, o, right, i);
    entered(g, ChartModel { forest: f, ..m }, i as int, stack, item)
}

/// The items of a column that wait for `s`.
pub open spec fn waiting(g: Context, column: Seq<Item>, s: SymbolId) -> Seq<Item>
    decreases column.len(),
{
    if column.len() == 0 {
        Seq::empty()
    } else if expected(g, column.last()) == Some(s) {
        waiting(g, column.drop_last(), s).push(column.last())
    } else {
        waiting(g, column.drop_last(), s)
    }
}

/// The chart and the items to process once each of `items` is moved over the
/// symbol that `right` derives.
pub open spec fn all_advanced(
    g: Context,
    m: ChartModel,
    i: usize,
    stack: Seq<Item>,
    items: Seq<Item>,
    right: ForestRef,
) -> (ChartModel, Seq<Item>)
    decreases items.len(),
{
    if items.len() == 0 {
        (m, stack)
    } else {
        let (m1, s1) = all_advanced(g, m, i, stack, items.drop_last(), right);
        advanced(g, m1, i, s1, items.last(), right)
    }
}

/// A rule with the dot in front, begun at `i`.
pub open spec fn fresh(rule: int, i: usize) -> Item {
    Item { rule: rule as usize, dot: 0, origin: i, node: ForestRef::Nothing }
}

/// The chart and the items to process once the first `k` rules, as far as they
/// produce `s`, are entered in column `i`.
pub open spec fn predicted(
    g: Context,
    m: ChartModel,
    i: usize,
    stack: Seq<Item>,
    s: SymbolId,
    k: nat,
) -> (ChartModel, Seq<Item>)
    decreases k,
{
    if k == 0 {
        (m, stack)
    } else {
        let (m1, s1) = predicted(g, m, i, stack, s, (k - 1) as nat);
        if g.rules[k - 1].origin == s {
            entered(g, m1, i as int, s1, fresh(k - 1, i))
        } else {
            (m1, s1)
        }
    }
}

/// The link of a chain of completions that begins with `s`.
pub open spec fn find_trans(row: Seq<(SymbolId, usize)>, s: SymbolId, from: int) -> Option<usize>
    decreases row.len() - from,
{
    if from < 0 || from >= row.len() {
        None
    } else if row[from].0 == s {
        Some(row[from].1)
    } else {
        find_trans(row, s, from + 1)
    }
}

// ---------------------------------------------------------------------------
// Well-formedness

/// Whether an item can stand in a column of number at most `c`.
pub open spec fn item_ok(g: Context, f: earley_forest::ForestModel, c: int, x: Item) -> bool {
    &&& x.rule < g.rules.len()
    &&& x.dot <= g.rules[x.rule as int].expansion.len()
    &&& x.origin <= c
    &&& earley_forest::ref_ok(f, x.node)
}

/// Whether items can stand in a column of number at most `c`.
pub open spec fn items_ok(g: Context, f: earley_forest::ForestModel, c: int, s: Seq<Item>) -> bool {
    forall|k: int| 0 <= k < s.len() ==> item_ok(g, f, c, #[trigger] s[k])
}

/// Whether no two items are the same.
pub open spec fn items_distinct(s: Seq<Item>) -> bool {
    forall|a: int, b: int|
        0 <= a < b < s.len() ==> !same_item(#[trigger] s[a], #[trigger] s[b])
}

/// Whether a link of a chain of completions is in order.
pub open spec fn link_ok(g: Context, m: ChartModel, t: int) -> bool {
    let x = m.arena[t];
    &&& x.key_start < m.columns.len()
    &&& x.recognized.ix() < g.n
    &&& item_ok(g, m.forest, x.key_start as int, x.red)
    &&& x.red.dot < g.rules[x.red.rule as int].expansion.len()
    &&& item_ok(g, m.forest, x.key_start as int, x.top)
    &&& is_done(g, x.top)
    &&& match x.parent {
        Some(p) => p < t,
        None => true,
    }
}

/// Whether the row of column `c` names links that begin there.
pub open spec fn row_ok(m: ChartModel, c: int, row: Seq<(SymbolId, usize)>) -> bool {
    forall|k: int|
        0 <= k < row.len() ==> {
            &&& (#[trigger] row[k]).1 < m.arena.len()
            &&& m.arena[row[k].1 as int].key_start == c
            &&& m.arena[row[k].1 as int].recognized == row[k].0
        }
}

/// Whether everything in the chart points into it; `i` is the current column.
pub open spec fn chart_ok(g: Context, m: ChartModel, i: int) -> bool {
    &&& context_ok(g)
    &&& 0 <= i < m.columns.len()
    &&& m.trans.len() == m.columns.len()
    &&& earley_forest::forest_ok(m.forest, g.rules.len(), m.arena.len())
    &&& forall|c: int| 0 <= c < m.columns.len() ==> items_ok(g, m.forest, c, #[trigger] m.columns[c])
    &&& forall|c: int| 0 <= c < m.columns.len() ==> items_distinct(#[trigger] m.columns[c])
    &&& items_ok(g, m.forest, i, m.scan)
    &&& forall|k: int| 0 <= k < m.scan.len() ==> wants_terminal(g, #[trigger] m.scan[k])
    &&& forall|t: int| 0 <= t < m.arena.len() ==> link_ok(g, m, t)
    &&& forall|c: int| 0 <= c < m.trans.len() ==> row_ok(m, c, #[trigger] m.trans[c])
}

/// A larger forest keeps items in order.
pub proof fn lemma_items_extend(
    g: Context,
    f: earley_forest::ForestModel,
    h: earley_forest::ForestModel,
    c: int,
    s: Seq<Item>,
)
    requires
        earley_forest::extends(f, h),
        items_ok(g, f, c, s),
    ensures
        items_ok(g, h, c, s),
{
    assert forall|k: int| 0 <= k < s.len() implies item_ok(g, h, c, #[trigger] s[k]) by {
        assert(item_ok(g, f, c, s[k]));
    }
}

/// A larger forest keeps the chart in order.
pub proof fn lemma_chart_forest(g: Context, m: ChartModel, i: int, h: earley_forest::ForestModel)
    requires
        chart_ok(g, m, i),
        earley_forest::extends(m.forest, h),
        earley_forest::forest_ok(h, g.rules.len(), m.arena.len()),
    ensures
        chart_ok(g, (ChartModel { forest: h, ..m }), i),
{
    let n = ChartModel { forest: h, ..m };
    assert forall|c: int| 0 <= c < n.columns.len() implies items_ok(
        g,
        h,
        c,
        #[trigger] n.columns[c],
    ) by {
        lemma_items_extend(g, m.forest, h, c, m.columns[c]);
    }
    lemma_items_extend(g, m.forest, h, i, m.scan);
    assert forall|t: int| 0 <= t < n.arena.len() implies link_ok(g, n, t) by {
        assert(link_ok(g, m, t));
    }
    assert forall|c: int| 0 <= c < n.trans.len() implies row_ok(n, c, #[trigger] n.trans[c]) by {
        assert(row_ok(m, c, m.trans[c]));
    }
}

/// Entering an item keeps the chart in order.
pub proof fn lemma_entered(g: Context, m: ChartModel, i: int, stack: Seq<Item>, item: Item)
    requires
        chart_ok(g, m, i),
        item_ok(g, m.forest, i, item),
        items_ok(g, m.forest, i, stack),
    ensures
        chart_ok(g, entered(g, m, i, stack, item).0, i),
        items_ok(g, m.forest, i, entered(g, m, i, stack, item).1),
        entered(g, m, i, stack, item).0.forest == m.forest,
        entered(g, m, i, stack, item).0.arena == m.arena,
        entered(g, m, i, stack, item).0.trans == m.trans,
        entered(g, m, i, stack, item).0.columns.len() == m.columns.len(),
        forall|c: int|
            0 <= c < m.columns.len() && c != i ==> #[trigger] entered(g, m, i, stack, item).0.columns[c]
                == m.columns[c],
        entered(g, m, i, stack, item).0.columns[i].len() - m.columns[i].len() == entered(
            g,
            m,
            i,
            stack,
            item,
        ).1.len() - stack.len(),
        entered(g, m, i, stack, item).0.columns[i].len() >= m.columns[i].len(),
{
    let (n, s) = entered(g, m, i, stack, item);
    assert forall|c: int| 0 <= c < n.columns.len() implies items_ok(
        g,
        n.forest,
        c,
        #[trigger] n.columns[c],
    ) && items_distinct(n.columns[c]) by {
        assert(items_ok(g, m.forest, c, m.columns[c]));
        assert(items_distinct(m.columns[c]));
        if c == i && n.columns[i].len() > m.columns[i].len() {
            assert forall|a: int, b: int| 0 <= a < b < n.columns[i].len() implies !same_item(
                #[trigger] n.columns[i][a],
                #[trigger] n.columns[i][b],
            ) by {
                if b < m.columns[i].len() {
                    assert(!same_item(m.columns[i][a], m.columns[i][b]));
                } else {
                    assert(!same_item(m.columns[i][a], item));
                }
            }
        }
    }
    assert forall|t: int| 0 <= t < n.arena.len() implies link_ok(g, n, t) by {
        assert(link_ok(g, m, t));
    }
    assert forall|c: int| 0 <= c < n.trans.len() implies row_ok(n, c, #[trigger] n.trans[c]) by {
        assert(row_ok(m, c, m.trans[c]));
    }
}

/// Whether column `i` and the items to process grew by as many items, and
/// nothing else of the columns and links changed.
pub open spec fn grew(
    m: ChartModel,
    s: Seq<Item>,
    n: ChartModel,
    t: Seq<Item>,
    i: int,
) -> bool {
    &&& n.columns.len() == m.columns.len()
    &&& forall|c: int|
        0 <= c < m.columns.len() && c != i ==> #[trigger] n.columns[c] == m.columns[c]
    &&& n.columns[i].len() - m.columns[i].len() == t.len() - s.len()
    &&& n.columns[i].len() >= m.columns[i].len()
    &&& n.trans == m.trans
    &&& n.arena == m.arena
}

/// Growth is transitive.
pub proof fn lemma_grew_trans(
    m: ChartModel,
    s: Seq<Item>,
    n: ChartModel,
    t: Seq<Item>,
    o: ChartModel,
    u: Seq<Item>,
    i: int,
)
    requires
        grew(m, s, n, t, i),
        grew(n, t, o, u, i),
    ensures
        grew(m, s, o, u, i),
{
    assert forall|c: int| 0 <= c < m.columns.len() && c != i implies #[trigger] o.columns[c]
        == m.columns[c] by {
        assert(n.columns[c] == m.columns[c]);
    }
}

/// Moving an item keeps the forest in order.
pub proof fn lemma_moved(
    g: Context,
    f: earley_forest::ForestModel,
    o: Item,
    right: ForestRef,
    end: usize,
    n_trans: nat,
    c: int,
)
    requires
        context_ok(g),
        earley_forest::forest_ok(f, g.rules.len(), n_trans),
        item_ok(g, f, c, o),
        o.dot < g.rules[o.rule as int].expansion.len(),
        earley_forest::ref_ok(f, right),
        moved(g, f, o, right, end).0.nodes.len() <= usize::MAX,
    ensures
        earley_forest::forest_ok(moved(g, f, o, right, end).0, g.rules.len(), n_trans),
        earley_forest::extends(f, moved(g, f, o, right, end).0),
        item_ok(g, moved(g, f, o, right, end).0, c, moved(g, f, o, right, end).1),
        moved(g, f, o, right, end).0.tokens == f.tokens,
{
    let key = key_at(g, o.rule, o.dot + 1);
    let n_rules = g.rules.len();
    let order = g.rules[o.rule as int].order;
    earley_forest::lemma_got(f, key, o.origin, end, n_rules, n_trans);
    let (f1, id) = earley_forest::got(f, key, o.origin, end);
    earley_forest::lemma_family_added(f1, id, moved_family(o, right), order, n_rules, n_trans);
    earley_forest::lemma_extends_trans(
        f,
        f1,
        earley_forest::family_added(f1, id, moved_family(o, right), order),
    );
}

/// What is waiting for a symbol stands in the column and expects it.
pub proof fn lemma_waiting(g: Context, column: Seq<Item>, s: SymbolId)
    ensures
        forall|k: int|
            0 <= k < waiting(g, column, s).len() ==> column.contains(
                #[trigger] waiting(g, column, s)[k],
            ) && expected(g, waiting(g, column, s)[k]) == Some(s),
        forall|k: int|
            0 <= k < column.len() && expected(g, #[trigger] column[k]) == Some(s) ==> waiting(
                g,
                column,
                s,
            ).contains(column[k]),
    decreases column.len(),
{
    if column.len() > 0 {
        let front = column.drop_last();
        lemma_waiting(g, front, s);
        let w0 = waiting(g, front, s);
        let w1 = waiting(g, column, s);
        assert forall|k: int| 0 <= k < w1.len() implies column.contains(#[trigger] w1[k])
            && expected(g, w1[k]) == Some(s) by {
            if k < w0.len() {
                assert(front.contains(w0[k]));
                let j = choose|j: int| 0 <= j < front.len() && front[j] == w0[k];
                assert(column[j] == w1[k]);
            } else {
                assert(column[column.len() - 1] == w1[k]);
            }
        }
        assert forall|k: int|
            0 <= k < column.len() && expected(g, #[trigger] column[k]) == Some(s) implies
            w1.contains(column[k]) by {
            if k < front.len() {
                assert(front[k] == column[k]);
                assert(w0.contains(front[k]));
                let j = choose|j: int| 0 <= j < w0.len() && w0[j] == front[k];
                assert(w1[j] == column[k]);
            } else {
                assert(w1[w0.len() as int] == column[k]);
            }
        }
    }
}

// ---------------------------------------------------------------------------
// The executable chart

/// A grammar with the sets that the Earley parser works with.
pub struct EarleyParser {
    pub grammar: CompiledGrammar,
    pub nullable: Vec<bool>,
    pub eps_only: Vec<bool>,
    /// Whether chains of completions are taken by their shortcuts.
    pub shortcuts: bool,
}

fn find_item(s: &Vec<Item>, item: Item) -> (r: bool)
    ensures
        r == has_item(s@, item),
{
    let mut i: usize = 0;
    while i < s.len()
        invariant
            i <= s@.len(),
            forall|k: int| 0 <= k < i ==> !same_item(#[trigger] s@[k], item),
        decreases s.len() - i,
    {
        let x = s[i];
        if x.rule == item.rule && x.dot == item.dot && x.origin == item.origin {
            proof {
                assert(same_item(s@[i as int], item));
            }
            return true;
        }
        i = i + 1;
    }
    false
}

/// Adds an item unless it is there.
pub fn add_item(s: &mut Vec<Item>, item: Item)
    ensures
        final(s)@ == item_added(old(s)@, item),
{
    if !find_item(s, item) {
        s.push(item);
    }
}

/// The link of a chain of completions that begins with `s`.
pub fn lookup(row: &Vec<(SymbolId, usize)>, s: SymbolId) -> (r: Option<usize>)
    ensures
        r == find_trans(row@, s, 0),
{
    let mut i: usize = 0;
    while i < row.len()
        invariant
            i <= row@.len(),
            find_trans(row@, s, 0) == find_trans(row@, s, i as int),
        decreases row.len() - i,
    {
        if row[i].0 == s {
            return Some(row[i].1);
        }
        i = i + 1;
    }
    None
}

impl EarleyParser {
    /// The grammar as the chart sees it.
    pub open spec fn context(&self) -> Context {
        Context {
            rules: self.grammar.models(),
            nt: self.grammar.terminal_count as nat,
            n: self.grammar.symbols@.len(),
            nullable: self.nullable@,
            eps_only: self.eps_only@,
            shortcuts: self.shortcuts,
        }
    }

    pub(crate) fn expect(&self, item: &Item) -> (r: Option<SymbolId>)
        requires
            item.rule < self.grammar.rules@.len(),
        ensures
            r == expected(self.context(), *item),
    {
        let rule = &self.grammar.rules[item.rule];
        proof {
            assert(self.context().rules[item.rule as int] == rule@);
        }
        if item.dot < rule.expansion.len() {
            Some(rule.expansion[item.dot])
        } else {
            None
        }
    }

    pub(crate) fn is_complete(&self, item: &Item) -> (r: bool)
        requires
            item.rule < self.grammar.rules@.len(),
        ensures
            r == is_done(self.context(), *item),
    {
        let rule = &self.grammar.rules[item.rule];
        proof {
            assert(self.context().rules[item.rule as int] == rule@);
        }
        item.dot >= rule.expansion.len()
    }

    pub(crate) fn expects_terminal(&self, item: &Item) -> (r: bool)
        requires
            item.rule < self.grammar.rules@.len(),
        ensures
            r == wants_terminal(self.context(), *item),
    {
        match self.expect(item) {
            Some(s) => s.index() < self.grammar.terminal_count,
            None => false,
        }
    }

    pub(crate) fn node_key(&self, rule: usize, dot: usize) -> (r: NodeKey)
        requires
            rule < self.grammar.rules@.len(),
        ensures
            r == key_at(self.context(), rule, dot as int),
    {
        let r = &self.grammar.rules[rule];
        proof {
            assert(self.context().rules[rule as int] == r@);
        }
        if dot >= r.expansion.len() {
            NodeKey::Sym(r.origin)
        } else {
            NodeKey::Inter(rule, dot)
        }
    }

    /// Enters an item in column `i`, or among those that wait for a terminal.
    pub(crate) fn enter(&self, chart: &mut Chart, i: usize, stack: &mut Vec<Item>, item: Item)
        requires
            chart_ok(self.context(), old(chart)@, i as int),
            item_ok(self.context(), old(chart)@.forest, i as int, item),
            items_ok(self.context(), old(chart)@.forest, i as int, old(stack)@),
        ensures
            (final(chart)@, final(stack)@) == entered(
                self.context(),
                old(chart)@,
                i as int,
                old(stack)@,
                item,
            ),
            chart_ok(self.context(), final(chart)@, i as int),
            items_ok(self.context(), final(chart)@.forest, i as int, final(stack)@),
            final(chart)@.forest == old(chart)@.forest,
            grew(old(chart)@, old(stack)@, final(chart)@, final(stack)@, i as int),
    {
        let ghost m = chart@;
        let ghost g = self.context();
        proof {
            lemma_entered(g, m, i as int, stack@, item);
            assert(m.columns[i as int] == chart.columns@[i as int]@);
        }
        if self.expects_terminal(&item) {
            add_item(&mut chart.to_scan, item);
        } else if !find_item(&chart.columns[i], item) {
            let ghost before = chart.columns@;
            let column = &mut chart.columns[i];
            column.push(item);
            stack.push(item);
            proof {
                assert(chart@.columns =~= m.columns.update(i as int, m.columns[i as int].push(item)));
                assert(chart@.trans =~= m.trans);
            }
        }
    }

    /// Moves an item over the symbol after its dot.
    pub(crate) fn step_over(&self, forest: &mut Forest, o: Item, right: ForestRef, end: usize) -> (r:
        Item)
        requires
            context_ok(self.context()),
            o.rule < self.grammar.rules@.len(),
            o.dot < self.context().rules[o.rule as int].expansion.len(),
        ensures
            (final(forest)@, r) == moved(self.context(), old(forest)@, o, right, end),
            final(forest)@.nodes.len() <= usize::MAX,
    {
        proof {
            assert(self.context().rules[o.rule as int] == self.grammar.rules@[o.rule as int]@);
        }
        let key = self.node_key(o.rule, o.dot + 1);
        let ghost f0 = forest@;
        let id = forest.get_or_create(key, o.origin, end);
        let n: usize = forest.nodes.len();
        proof {
            earley_forest::lemma_find_node(f0.nodes, key, o.origin, end, 0);
            assert(id < forest@.nodes.len());
        }
        forest.add_family(
            id,
            Packed { rule: o.rule, left: o.node, right, right_pos: o.dot },
            self.grammar.rules[o.rule].order,
        );
        proof {
            assert(forest@.nodes.len() == n);
        }
        Item { rule: o.rule, dot: o.dot + 1, origin: o.origin, node: ForestRef::Node(id) }
    }

    /// Moves an item over the symbol after its dot and enters it.
    pub(crate) fn advance(
        &self,
        chart: &mut Chart,
        i: usize,
        stack: &mut Vec<Item>,
        o: Item,
        right: ForestRef,
    )
        requires
            chart_ok(self.context(), old(chart)@, i as int),
            item_ok(self.context(), old(chart)@.forest, i as int, o),
            o.dot < self.context().rules[o.rule as int].expansion.len(),
            earley_forest::ref_ok(old(chart)@.forest, right),
            items_ok(self.context(), old(chart)@.forest, i as int, old(stack)@),
        ensures
            (final(chart)@, final(stack)@) == advanced(
                self.context(),
                old(chart)@,
                i,
                old(stack)@,
                o,
                right,
            ),
            chart_ok(self.context(), final(chart)@, i as int),
            items_ok(self.context(), final(chart)@.forest, i as int, final(stack)@),
            earley_forest::extends(old(chart)@.forest, final(chart)@.forest),
            grew(old(chart)@, old(stack)@, final(chart)@, final(stack)@, i as int),
    {
        let ghost m = chart@;
        let ghost g = self.context();
        let item = self.step_over(&mut chart.forest, o, right, i);
        proof {
            lemma_moved(g, m.forest, o, right, i, m.arena.len(), i as int);
            lemma_chart_forest(g, m, i as int, chart@.forest);
            assert(chart@ == (ChartModel { forest: chart@.forest, ..m }));
            lemma_items_extend(g, m.forest, chart@.forest, i as int, stack@);
        }
        self.enter(chart, i, stack, item);
    }
}

} // verus!
