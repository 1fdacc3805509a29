//! The Earley recogniser: prediction, completion and scanning.

use vstd::prelude::*;
use crate::earley_chart;
use crate::earley_chart::{add_item, lookup, Chart, EarleyParser};
use crate::earley_forest;
use crate::earley_forest::{Forest, ForestRef, Item, NodeKey, Packed};
use crate::earley_leo;
use crate::earley_paths;
use crate::earley_shape;
use crate::error;
use crate::error::ParseError;
use crate::perf;
use crate::perf::Counters;
use crate::symbols::SymbolId;
use crate::text;
use crate::tree;
use crate::tree::Token;

verus! {

// ---------------------------------------------------------------------------
// Processing a column

/// A column on its way to being closed: the chart, the items to process, and
/// the nodes of symbols that derive nothing here.
pub ghost struct Work {
    pub chart: earley_chart::ChartModel,
    pub stack: Seq<Item>,
    pub held: Seq<Option<usize>>,
    /// How many waiting items completion has examined.
    pub scans: nat,
}

/// The chart with a node for a complete item, and that node.
pub open spec fn node_for(
    g: earley_chart::Context,
    m: earley_chart::ChartModel,
    i: usize,
    item: Item,
) -> (earley_chart::ChartModel, usize) {
    match item.node {
        ForestRef::Node(id) => (m, id),
        _ => {
            let rule = g.rules[item.rule as int];
            let (f, id) = earley_forest::got(
                m.forest,
                NodeKey::Sym(rule.origin),
                item.origin,
                i,
            );
            (
                earley_chart::ChartModel {
                    forest: earley_forest::family_added(
                        f,
                        id,
                        Packed {
                            rule: item.rule,
                            left: ForestRef::Nothing,
                            right: ForestRef::Nothing,
                            right_pos: 0,
                        },
                        rule.order,
                    ),
                    ..m
                },
                id as usize,
            )
        },
    }
}

/// The chart and the items to process once a chain of completions is taken by
/// its shortcut `t`, from the node `id`.
pub open spec fn leapt(
    g: earley_chart::Context,
    m: earley_chart::ChartModel,
    i: usize,
    stack: Seq<Item>,
    t: usize,
    id: usize,
) -> (earley_chart::ChartModel, Seq<Item>) {
    let top = m.arena[t as int].top;
    let (f, top_node) = earley_forest::got(
        m.forest,
        earley_chart::key_at(g, top.rule, top.dot as int),
        top.origin,
        i,
    );
    earley_chart::entered(
        g,
        earley_chart::ChartModel {
            forest: earley_forest::path_added(f, top_node, (t, ForestRef::Node(id), i)),
            ..m
        },
        i as int,
        stack,
        Item { node: ForestRef::Node(top_node as usize), ..top },
    )
}

/// The chart and the items to process once the symbol that `item` produces is
/// complete, with the node `id`.
pub open spec fn completed(
    g: earley_chart::Context,
    m: earley_chart::ChartModel,
    i: usize,
    stack: Seq<Item>,
    item: Item,
    id: usize,
    start: SymbolId,
) -> (earley_chart::ChartModel, Seq<Item>) {
    let s = g.rules[item.rule as int].origin;
    let m1 = if item.origin != i {
        earley_leo::leo_created(g, m, s, item.origin, start)
    } else {
        m
    };
    let shortcut = if item.origin != i {
        earley_chart::find_trans(m1.trans[item.origin as int], s, 0)
    } else {
        None
    };
    match shortcut {
        Some(t) => leapt(g, m1, i, stack, t, id),
        None => earley_chart::all_advanced(
            g,
            m1,
            i,
            stack,
            earley_chart::waiting(g, m1.columns[item.origin as int], s),
            ForestRef::Node(id),
        ),
    }
}

/// Whether a lone item of column `col` waits for `s`, and is as good as complete.
pub open spec fn waits_alone(
    g: earley_chart::Context,
    m: earley_chart::ChartModel,
    s: SymbolId,
    col: usize,
    start: SymbolId,
) -> bool {
    let waiters = earley_chart::waiting(g, m.columns[col as int], s);
    waiters.len() == 1 && earley_leo::quasi_complete(g, waiters[0], start)
}

/// How many waiting items are examined to complete the symbol that `item`
/// produces: all that wait for it, unless there is a shortcut. The start symbol
/// from the beginning of the input has no link; where a lone item that is as good
/// as complete waits for it, that one is taken without a search.
pub open spec fn completion_scans(
    g: earley_chart::Context,
    m: earley_chart::ChartModel,
    i: usize,
    item: Item,
    start: SymbolId,
) -> nat {
    let s = g.rules[item.rule as int].origin;
    let m1 = if item.origin != i {
        earley_leo::leo_created(g, m, s, item.origin, start)
    } else {
        m
    };
    if item.origin != i && (earley_chart::find_trans(m1.trans[item.origin as int], s, 0) is Some
        || (g.shortcuts && s == start && item.origin == 0 && waits_alone(g, m1, s, 0, start))) {
        0
    } else {
        earley_chart::waiting(g, m1.columns[item.origin as int], s).len()
    }
}

/// One item processed in column `i`.
pub open spec fn work_step(
    g: earley_chart::Context,
    w: Work,
    i: usize,
    start: SymbolId,
) -> Work {
    let item = w.stack.last();
    let rest = w.stack.drop_last();
    match earley_chart::expected(g, item) {
        None => {
            let (m1, id) = node_for(g, w.chart, i, item);
            let s = g.rules[item.rule as int].origin;
            let held = if item.origin == i {
                w.held.update(s.ix() as int, Some(id))
            } else {
                w.held
            };
            let (m2, stack) = completed(g, m1, i, rest, item, id, start);
            let n = completion_scans(g, m1, i, item, start);
            Work { chart: m2, stack, held, scans: w.scans + n }
        },
        Some(s) => if s.ix() < g.nt {
            Work { stack: rest, ..w }
        } else {
            let (m1, s1) = earley_chart::predicted(g, w.chart, i, rest, s, g.rules.len());
            let (m2, s2) = match w.held[s.ix() as int] {
                Some(h) => earley_chart::advanced(g, m1, i, s1, item, ForestRef::Node(h)),
                None => (m1, s1),
            };
            Work { chart: m2, stack: s2, held: w.held, scans: w.scans }
        },
    }
}

/// The outcome of `k` items processed.
pub open spec fn work_run(
    g: earley_chart::Context,
    w: Work,
    i: usize,
    start: SymbolId,
    k: nat,
) -> Work
    decreases k,
{
    if k == 0 {
        w
    } else {
        work_step(g, work_run(g, w, i, start, (k - 1) as nat), i, start)
    }
}

/// Whether `v` comes of `k` items processed, each of which was there.
pub open spec fn work_reaches(
    g: earley_chart::Context,
    w: Work,
    i: usize,
    start: SymbolId,
    v: Work,
    k: nat,
) -> bool {
    &&& work_run(g, w, i, start, k) == v
    &&& forall|j: nat| j < k ==> (#[trigger] work_run(g, w, i, start, j)).stack.len() > 0
}

/// A column before any of its items is processed.
pub open spec fn begun(g: earley_chart::Context, m: earley_chart::ChartModel, i: int) -> Work {
    Work { chart: m, stack: m.columns[i], held: Seq::new(g.n, |s: int| None), scans: 0 }
}

/// Whether `n` is the chart `m` with column `i` closed under prediction and
/// completion.
pub open spec fn closed_at(
    g: earley_chart::Context,
    m: earley_chart::ChartModel,
    i: usize,
    start: SymbolId,
    n: earley_chart::ChartModel,
) -> bool {
    exists|k: nat, v: Work|
        #[trigger] work_reaches(g, begun(g, m, i as int), i, start, v, k) && v.stack.len() == 0
            && v.chart == n && n.arena.len() <= usize::MAX
}

/// The same, where completion examines `scans` waiting items.
pub open spec fn closed_with(
    g: earley_chart::Context,
    m: earley_chart::ChartModel,
    i: usize,
    start: SymbolId,
    n: earley_chart::ChartModel,
    scans: nat,
) -> bool {
    exists|k: nat, v: Work|
        #[trigger] work_reaches(g, begun(g, m, i as int), i, start, v, k) && v.stack.len() == 0
            && v.chart == n && v.scans == scans && n.arena.len() <= usize::MAX
}

// ---------------------------------------------------------------------------
// Scanning

/// What scanning has made so far: the forest, the items of the next column,
/// and those of them that wait for a terminal.
pub ghost struct Scanned {
    pub forest: earley_forest::ForestModel,
    pub column: Seq<Item>,
    pub scan: Seq<Item>,
}

/// The scanned state with one more item, by what it waits for.
pub open spec fn shelved(
    g: earley_chart::Context,
    f: earley_forest::ForestModel,
    column: Seq<Item>,
    scan: Seq<Item>,
    item: Item,
) -> Scanned {
    if earley_chart::wants_terminal(g, item) {
        Scanned { forest: f, column, scan: earley_chart::item_added(scan, item) }
    } else {
        Scanned { forest: f, column: earley_chart::item_added(column, item), scan }
    }
}

/// The outcome of scanning the first `k` items that wait for a terminal.
pub open spec fn scanned(
    g: earley_chart::Context,
    f: earley_forest::ForestModel,
    items: Seq<Item>,
    t: SymbolId,
    right: ForestRef,
    end: usize,
    k: nat,
) -> Scanned
    decreases k,
{
    if k == 0 {
        Scanned { forest: f, column: Seq::empty(), scan: Seq::empty() }
    } else {
        let s = scanned(g, f, items, t, right, end, (k - 1) as nat);
        let o = items[k - 1];
        if earley_chart::expected(g, o) == Some(t) {
            let (f1, item) = earley_chart::moved(g, s.forest, o, right, end);
            shelved(g, f1, s.column, s.scan, item)
        } else {
            s
        }
    }
}

/// The chart with the next column, or none where no item waits for the token.
pub open spec fn scan_step(
    g: earley_chart::Context,
    m: earley_chart::ChartModel,
    t: tree::TokenModel,
) -> Option<earley_chart::ChartModel> {
    let s = scanned(
        g,
        earley_forest::token_added(m.forest, t),
        m.scan,
        t.type_id,
        ForestRef::Tok(m.forest.tokens.len() as usize),
        m.columns.len() as usize,
        m.scan.len(),
    );
    if s.column.len() == 0 && s.scan.len() == 0 {
        None
    } else {
        Some(next_chart(m, s))
    }
}

/// The chart with what scanning has made as its next column.
pub open spec fn next_chart(
    m: earley_chart::ChartModel,
    s: Scanned,
) -> earley_chart::ChartModel {
    earley_chart::ChartModel {
        columns: m.columns.push(s.column),
        scan: s.scan,
        forest: s.forest,
        trans: m.trans.push(Seq::empty()),
        ..m
    }
}

// ---------------------------------------------------------------------------
// The whole input

/// A chart without items.
pub open spec fn blank_chart() -> earley_chart::ChartModel {
    earley_chart::ChartModel {
        columns: seq![Seq::empty()],
        scan: Seq::empty(),
        forest: earley_forest::ForestModel { nodes: Seq::empty(), tokens: Seq::empty() },
        trans: seq![Seq::empty()],
        arena: Seq::empty(),
    }
}

/// The chart with the rules of the start symbol.
pub open spec fn started(g: earley_chart::Context, start: SymbolId) -> earley_chart::ChartModel {
    earley_chart::predicted(g, blank_chart(), 0, Seq::empty(), start, g.rules.len()).0
}

/// Whether `m` is the chart once the first `i` tokens are scanned and column
/// `i` is closed.
pub open spec fn charted(
    g: earley_chart::Context,
    start: SymbolId,
    tokens: Seq<tree::TokenModel>,
    i: nat,
    m: earley_chart::ChartModel,
) -> bool
    decreases i,
{
    if i == 0 {
        closed_at(g, started(g, start), 0, start, m)
    } else {
        exists|p: earley_chart::ChartModel|
            charted(g, start, tokens, (i - 1) as nat, p) && #[trigger] follows(
                g,
                start,
                tokens,
                i as int,
                p,
                m,
            )
    }
}

/// Whether `m` is the chart with token `i - 1` scanned and column `i` closed.
pub open spec fn follows(
    g: earley_chart::Context,
    start: SymbolId,
    tokens: Seq<tree::TokenModel>,
    i: int,
    p: earley_chart::ChartModel,
    m: earley_chart::ChartModel,
) -> bool {
    match scan_step(g, p, tokens[i - 1]) {
        Some(n) => closed_at(g, n, i as usize, start, m),
        None => false,
    }
}

/// The same, where completion examines `scans` waiting items in all.
pub open spec fn charted_with(
    g: earley_chart::Context,
    start: SymbolId,
    tokens: Seq<tree::TokenModel>,
    i: nat,
    m: earley_chart::ChartModel,
    scans: nat,
) -> bool
    decreases i,
{
    if i == 0 {
        closed_with(g, started(g, start), 0, start, m, scans)
    } else {
        exists|p: earley_chart::ChartModel, a: nat, b: nat|
            charted_with(g, start, tokens, (i - 1) as nat, p, a) && #[trigger] follows_with(
                g,
                start,
                tokens,
                i as int,
                p,
                a,
                m,
                b,
            ) && scans == a + b
    }
}

/// Whether `m` is the chart with token `i - 1` scanned and column `i` closed, where
/// completion examines `b` waiting items on top of `a`.
pub open spec fn follows_with(
    g: earley_chart::Context,
    start: SymbolId,
    tokens: Seq<tree::TokenModel>,
    i: int,
    p: earley_chart::ChartModel,
    a: nat,
    m: earley_chart::ChartModel,
    b: nat,
) -> bool {
    match scan_step(g, p, tokens[i - 1]) {
        Some(n) => closed_with(g, n, i as usize, start, m, b),
        None => false,
    }
}

/// Counters with the waiting items examined and the nodes made of a chart.
pub open spec fn chart_counted(c: Counters, scans: nat, nodes: nat) -> Counters {
    Counters {
        completer_scan_steps: perf::counted(c.completer_scan_steps, scans),
        forest_nodes: perf::counted(c.forest_nodes, nodes),
        ..c
    }
}

/// Whether `d` is `c` with the work counted that it takes to build the forest `f`
/// of the tokens.
pub open spec fn forest_counted(
    g: earley_chart::Context,
    start: SymbolId,
    tokens: Seq<tree::TokenModel>,
    f: earley_forest::ForestModel,
    c: Counters,
    d: Counters,
) -> bool {
    exists|m: earley_chart::ChartModel, scans: nat|
        #[trigger] charted_with(g, start, tokens, tokens.len(), m, scans) && d == chart_counted(
            c,
            scans,
            f.nodes.len(),
        )
}

/// Whether `d` is `c` with the work counted that it takes to find that the tokens
/// are no sentence.
pub open spec fn failure_counted(
    g: earley_chart::Context,
    start: SymbolId,
    tokens: Seq<tree::TokenModel>,
    c: Counters,
    d: Counters,
) -> bool {
    exists|i: nat, m: earley_chart::ChartModel, scans: nat|
        #[trigger] charted_with(g, start, tokens, i, m, scans) && (i == tokens.len() || i
            < tokens.len() && scan_step(g, m, tokens[i as int]) is None) && d == chart_counted(
            c,
            scans,
            m.forest.nodes.len(),
        )
}

/// The larger of two numbers.
pub open spec fn larger(a: usize, b: usize) -> usize {
    if a < b {
        b
    } else {
        a
    }
}

/// Where the input ends.
pub open spec fn end_place(tokens: Seq<tree::TokenModel>) -> (usize, usize) {
    if tokens.len() == 0 {
        (1, 1)
    } else {
        let t = tokens.last();
        (larger(t.end_line, t.line), larger(t.end_column, t.column))
    }
}

/// Whether `f`, with root `root`, is the forest of the tokens.
pub open spec fn forest_of(
    g: earley_chart::Context,
    start: SymbolId,
    tokens: Seq<tree::TokenModel>,
    f: earley_forest::ForestModel,
    root: usize,
) -> bool {
    exists|m: earley_chart::ChartModel|
        #[trigger] charted(g, start, tokens, tokens.len(), m) && earley_forest::find_node(
            m.forest.nodes,
            NodeKey::Sym(start),
            0,
            tokens.len() as usize,
            0,
        ) == Some(root as int) && earley_paths::loaded(g, m.arena, m.forest, root, f)
        && earley_shape::within_limits(f)
}

/// Whether no item waits for the token at `i` once those before it are taken.
pub open spec fn stuck_at(
    g: earley_chart::Context,
    start: SymbolId,
    tokens: Seq<tree::TokenModel>,
    i: nat,
) -> bool {
    exists|m: earley_chart::ChartModel|
        #[trigger] charted(g, start, tokens, i, m) && scan_step(g, m, tokens[i as int]) is None
}

/// Whether all tokens are taken, and they are not yet a whole sentence.
pub open spec fn unfinished(
    g: earley_chart::Context,
    start: SymbolId,
    tokens: Seq<tree::TokenModel>,
) -> bool {
    exists|m: earley_chart::ChartModel|
        #[trigger] charted(g, start, tokens, tokens.len(), m) && earley_forest::find_node(
            m.forest.nodes,
            NodeKey::Sym(start),
            0,
            tokens.len() as usize,
            0,
        ) is None
}

/// Whether `e` is the report of tokens that are no sentence.
pub open spec fn chart_error(
    g: earley_chart::Context,
    start: SymbolId,
    tokens: Seq<tree::TokenModel>,
    e: error::ErrorModel,
) -> bool {
    ||| exists|i: nat|
        i < tokens.len() && #[trigger] stuck_at(g, start, tokens, i) && e
            == error::unexpected_token_model(tokens[i as int], Seq::empty())
    ||| unfinished(g, start, tokens) && e == error::unexpected_eof_model(
        end_place(tokens).0,
        end_place(tokens).1,
        Seq::empty(),
    )
}

// ---------------------------------------------------------------------------
// Execution

/// Whether the nodes that are held are in the forest.
pub open spec fn held_ok(f: earley_forest::ForestModel, held: Seq<Option<usize>>) -> bool {
    forall|s: int|
        0 <= s < held.len() ==> match #[trigger] held[s] {
            Some(h) => h < f.nodes.len(),
            None => true,
        }
}

proof fn lemma_held_extends(
    f: earley_forest::ForestModel,
    h: earley_forest::ForestModel,
    held: Seq<Option<usize>>,
)
    requires
        earley_forest::extends(f, h),
        held_ok(f, held),
    ensures
        held_ok(h, held),
{
    assert forall|s: int| 0 <= s < held.len() implies (match #[trigger] held[s] {
        Some(k) => k < h.nodes.len(),
        None => true,
    }) by {
        assert(match held[s] {
            Some(k) => k < f.nodes.len(),
            None => true,
        });
    }
}

proof fn lemma_work_next(
    g: earley_chart::Context,
    from: Work,
    i: usize,
    start: SymbolId,
    v: Work,
    k: nat,
)
    requires
        work_reaches(g, from, i, start, v, k),
        v.stack.len() > 0,
    ensures
        work_reaches(g, from, i, start, work_step(g, v, i, start), k + 1),
{
    assert(((k + 1) - 1) as nat == k);
    assert forall|j: nat| j < k + 1 implies (#[trigger] work_run(
        g,
        from,
        i,
        start,
        j,
    )).stack.len() > 0 by {
        if j == k {
        }
    }
}

impl EarleyParser {
    /// The node of a complete item.
    fn complete_node(&self, chart: &mut Chart, i: usize, item: Item) -> (id: usize)
        requires
            earley_chart::chart_ok(self.context(), old(chart)@, i as int),
            earley_chart::item_ok(self.context(), old(chart)@.forest, i as int, item),
        ensures
            (final(chart)@, id) == node_for(self.context(), old(chart)@, i, item),
            earley_chart::chart_ok(self.context(), final(chart)@, i as int),
            earley_forest::extends(old(chart)@.forest, final(chart)@.forest),
            final(chart)@.columns == old(chart)@.columns,
            id < final(chart)@.forest.nodes.len(),
    {
        let ghost g = self.context();
        let ghost m = chart@;
        let ghost n_rules = g.rules.len();
        match item.node {
            ForestRef::Node(id) => {
                proof {
                    assert(earley_forest::extends(m.forest, m.forest));
                }
                id
            },
            _ => {
                let rule = &self.grammar.rules[item.rule];
                proof {
                    assert(g.rules[item.rule as int] == rule@);
                    earley_forest::lemma_got(
                        m.forest,
                        NodeKey::Sym(rule.origin),
                        item.origin,
                        i,
                        n_rules,
                        m.arena.len(),
                    );
                }
                let id = chart.forest.get_or_create(NodeKey::Sym(rule.origin), item.origin, i);
                let ghost f1 = chart@.forest;
                let p = Packed {
                    rule: item.rule,
                    left: ForestRef::Nothing,
                    right: ForestRef::Nothing,
                    right_pos: 0,
                };
                proof {
                    earley_forest::lemma_family_added(
                        f1,
                        id as int,
                        p,
                        rule@.order,
                        n_rules,
                        m.arena.len(),
                    );
                }
                chart.forest.add_family(id, p, rule.order);
                proof {
                    earley_forest::lemma_extends_trans(m.forest, f1, chart@.forest);
                    earley_chart::lemma_chart_forest(g, m, i as int, chart@.forest);
                    assert(chart@ == (earley_chart::ChartModel { forest: chart@.forest, ..m }));
                }
                id
            },
        }
    }

    /// Takes a chain of completions by its shortcut.
    fn leap(&self, chart: &mut Chart, i: usize, stack: &mut Vec<Item>, t: usize, id: usize)
        requires
            earley_chart::chart_ok(self.context(), old(chart)@, i as int),
            t < old(chart)@.arena.len(),
            old(chart)@.arena[t as int].key_start <= i,
            earley_chart::items_ok(self.context(), old(chart)@.forest, i as int, old(stack)@),
        ensures
            (final(chart)@, final(stack)@) == leapt(
                self.context(),
                old(chart)@,
                i,
                old(stack)@,
                t,
                id,
            ),
            earley_chart::chart_ok(self.context(), final(chart)@, i as int),
            earley_chart::items_ok(self.context(), final(chart)@.forest, i as int, final(stack)@),
            earley_forest::extends(old(chart)@.forest, final(chart)@.forest),
            earley_chart::grew(
                old(chart)@,
                old(stack)@,
                final(chart)@,
                final(stack)@,
                i as int,
            ),
    {
        let ghost g = self.context();
        let ghost m = chart@;
        let ghost n_rules = g.rules.len();
        let top = chart.arena[t].top;
        proof {
            assert(earley_chart::link_ok(g, m, t as int));
            assert(m.arena[t as int] == chart.arena@[t as int]);
        }
        let key = self.node_key(top.rule, top.dot);
        proof {
            earley_forest::lemma_got(m.forest, key, top.origin, i, n_rules, m.arena.len());
        }
        let top_node = chart.forest.get_or_create(key, top.origin, i);
        let ghost f1 = chart@.forest;
        proof {
            earley_forest::lemma_path_added(
                f1,
                top_node as int,
                (t, ForestRef::Node(id), i),
                n_rules,
                m.arena.len(),
            );
        }
        chart.forest.add_path(top_node, t, ForestRef::Node(id), i);
        proof {
            earley_forest::lemma_extends_trans(m.forest, f1, chart@.forest);
            earley_chart::lemma_chart_forest(g, m, i as int, chart@.forest);
            assert(chart@ == (earley_chart::ChartModel { forest: chart@.forest, ..m }));
            earley_chart::lemma_items_extend(g, m.forest, chart@.forest, i as int, stack@);
        }
        let item = Item {
            rule: top.rule,
            dot: top.dot,
            origin: top.origin,
            node: ForestRef::Node(top_node),
        };
        self.enter(chart, i, stack, item);
    }

    /// Moves all items that wait for a complete symbol.
    #[verifier::rlimit(40)]
    fn advance_waiters(
        &self,
        chart: &mut Chart,
        i: usize,
        stack: &mut Vec<Item>,
        col: usize,
        s: SymbolId,
        id: usize,
    ) -> (n: usize)
        requires
            earley_chart::chart_ok(self.context(), old(chart)@, i as int),
            col <= i,
            id < old(chart)@.forest.nodes.len(),
            earley_chart::items_ok(self.context(), old(chart)@.forest, i as int, old(stack)@),
        ensures
            n == earley_chart::waiting(self.context(), old(chart)@.columns[col as int], s).len(),
            (final(chart)@, final(stack)@) == earley_chart::all_advanced(
                self.context(),
                old(chart)@,
                i,
                old(stack)@,
                earley_chart::waiting(self.context(), old(chart)@.columns[col as int], s),
                ForestRef::Node(id),
            ),
            earley_chart::chart_ok(self.context(), final(chart)@, i as int),
            earley_chart::items_ok(self.context(), final(chart)@.forest, i as int, final(stack)@),
            earley_forest::extends(old(chart)@.forest, final(chart)@.forest),
            earley_chart::grew(
                old(chart)@,
                old(stack)@,
                final(chart)@,
                final(stack)@,
                i as int,
            ),
    {
        let ghost g = self.context();
        let ghost m = chart@;
        let ghost s0 = stack@;
        let ghost column = m.columns[col as int];
        proof {
            assert(column == chart.columns@[col as int]@);
            assert(earley_chart::items_ok(g, m.forest, col as int, column));
            assert forall|k: int|
                0 <= k < chart.columns@[col as int]@.len() implies (
            #[trigger] chart.columns@[col as int]@[k]).rule < self.grammar.rules@.len() by {
                assert(earley_chart::item_ok(g, m.forest, col as int, column[k]));
            }
        }
        let items = self.waiters(&chart.columns[col], s);
        proof {
            earley_chart::lemma_waiting(g, column, s);
            assert forall|k: int| 0 <= k < items@.len() implies earley_chart::item_ok(
                g,
                m.forest,
                i as int,
                #[trigger] items@[k],
            ) && earley_chart::expected(g, items@[k]) == Some(s) by {
                assert(column.contains(earley_chart::waiting(g, column, s)[k]));
                let j = choose|j: int| 0 <= j < column.len() && column[j] == items@[k];
                assert(earley_chart::item_ok(g, m.forest, col as int, column[j]));
            }
            assert(items@.take(0) =~= Seq::empty());
            assert(earley_forest::extends(m.forest, m.forest));
        }
        let mut k: usize = 0;
        while k < items.len()
            invariant
                k <= items@.len(),
                g == self.context(),
                earley_chart::chart_ok(g, chart@, i as int),
                earley_chart::items_ok(g, chart@.forest, i as int, stack@),
                earley_forest::extends(m.forest, chart@.forest),
                id < m.forest.nodes.len(),
                forall|q: int|
                    0 <= q < items@.len() ==> earley_chart::item_ok(
                        g,
                        m.forest,
                        i as int,
                        #[trigger] items@[q],
                    ) && earley_chart::expected(g, items@[q]) == Some(s),
                earley_chart::grew(m, s0, chart@, stack@, i as int),
                (chart@, stack@) == earley_chart::all_advanced(
                    g,
                    m,
                    i,
                    s0,
                    items@.take(k as int),
                    ForestRef::Node(id),
                ),
            decreases items.len() - k,
        {
            let ghost m1 = chart@;
            let ghost s1 = stack@;
            proof {
                assert(items@.take(k + 1).drop_last() =~= items@.take(k as int));
                assert(items@.take(k + 1).last() == items@[k as int]);
                assert(earley_chart::item_ok(g, m.forest, i as int, items@[k as int]));
                earley_forest::lemma_ref_extends(m.forest, m1.forest, items@[k as int].node);
            }
            self.advance(chart, i, stack, items[k], ForestRef::Node(id));
            proof {
                earley_forest::lemma_extends_trans(m.forest, m1.forest, chart@.forest);
                earley_chart::lemma_grew_trans(m, s0, m1, s1, chart@, stack@, i as int);
            }
            k = k + 1;
        }
        proof {
            assert(items@.take(items@.len() as int) =~= items@);
        }
        items.len()
    }

    /// Enters the rules of a symbol.
    pub(crate) fn predict(&self, chart: &mut Chart, i: usize, stack: &mut Vec<Item>, s: SymbolId)
        requires
            earley_chart::chart_ok(self.context(), old(chart)@, i as int),
            earley_chart::items_ok(self.context(), old(chart)@.forest, i as int, old(stack)@),
        ensures
            (final(chart)@, final(stack)@) == earley_chart::predicted(
                self.context(),
                old(chart)@,
                i,
                old(stack)@,
                s,
                self.context().rules.len(),
            ),
            earley_chart::chart_ok(self.context(), final(chart)@, i as int),
            earley_chart::items_ok(self.context(), final(chart)@.forest, i as int, final(stack)@),
            final(chart)@.forest == old(chart)@.forest,
            earley_chart::grew(
                old(chart)@,
                old(stack)@,
                final(chart)@,
                final(stack)@,
                i as int,
            ),
    {
        let ghost g = self.context();
        let ghost m = chart@;
        let ghost s0 = stack@;
        let n: usize = self.grammar.rules.len();
        let mut k: usize = 0;
        while k < n
            invariant
                k <= n,
                n == g.rules.len(),
                g == self.context(),
                earley_chart::chart_ok(g, chart@, i as int),
                earley_chart::items_ok(g, chart@.forest, i as int, stack@),
                chart@.forest == m.forest,
                earley_chart::grew(m, s0, chart@, stack@, i as int),
                (chart@, stack@) == earley_chart::predicted(g, m, i, s0, s, k as nat),
            decreases n - k,
        {
            proof {
                assert(g.rules[k as int] == self.grammar.rules@[k as int]@);
            }
            if self.grammar.rules[k].origin == s {
                let ghost m1 = chart@;
                let ghost s1 = stack@;
                let item = Item { rule: k, dot: 0, origin: i, node: ForestRef::Nothing };
                self.enter(chart, i, stack, item);
                proof {
                    earley_chart::lemma_grew_trans(m, s0, m1, s1, chart@, stack@, i as int);
                }
            }
            k = k + 1;
        }
    }

    /// Whether a lone item of the first column waits for `s`, and is as good as
    /// complete.
    fn waits_alone(
        &self,
        chart: &Chart,
        Ghost(i): Ghost<int>,
        s: SymbolId,
        start_id: SymbolId,
    ) -> (r: bool)
        requires
            earley_chart::chart_ok(self.context(), chart@, i),
            chart@.columns.len() > 0,
        ensures
            r == waits_alone(self.context(), chart@, s, 0, start_id),
    {
        let ghost g = self.context();
        let ghost m = chart@;
        proof {
            assert(m.columns[0] == chart.columns@[0]@);
            assert(earley_chart::items_ok(g, m.forest, 0, m.columns[0]));
            earley_chart::lemma_waiting(g, m.columns[0], s);
            assert forall|k: int| 0 <= k < chart.columns@[0]@.len() implies (
            #[trigger] chart.columns@[0]@[k]).rule < self.grammar.rules@.len() by {
                assert(earley_chart::item_ok(g, m.forest, 0, m.columns[0][k]));
            }
        }
        let waiters = self.waiters(&chart.columns[0], s);
        if waiters.len() != 1 {
            return false;
        }
        proof {
            assert(m.columns[0].contains(earley_chart::waiting(g, m.columns[0], s)[0]));
            let k = choose|k: int| 0 <= k < m.columns[0].len() && m.columns[0][k] == waiters@[0];
            assert(earley_chart::item_ok(g, m.forest, 0, m.columns[0][k]));
        }
        self.is_quasi_complete(&waiters[0], start_id)
    }

    /// Moves what waits for a complete symbol, by its shortcut if it has one.
    #[verifier::rlimit(40)]
    fn complete(
        &self,
        chart: &mut Chart,
        i: usize,
        stack: &mut Vec<Item>,
        item: Item,
        id: usize,
        start_id: SymbolId,
    ) -> (scans: usize)
        requires
            earley_chart::chart_ok(self.context(), old(chart)@, i as int),
            earley_chart::item_ok(self.context(), old(chart)@.forest, i as int, item),
            id < old(chart)@.forest.nodes.len(),
            earley_chart::items_ok(self.context(), old(chart)@.forest, i as int, old(stack)@),
        ensures
            scans == completion_scans(self.context(), old(chart)@, i, item, start_id),
            (final(chart)@, final(stack)@) == completed(
                self.context(),
                old(chart)@,
                i,
                old(stack)@,
                item,
                id,
                start_id,
            ),
            earley_chart::chart_ok(self.context(), final(chart)@, i as int),
            earley_chart::items_ok(self.context(), final(chart)@.forest, i as int, final(stack)@),
            earley_forest::extends(old(chart)@.forest, final(chart)@.forest),
            final(chart)@.columns[i as int].len() - old(chart)@.columns[i as int].len()
                == final(stack)@.len() - old(stack)@.len(),
            final(chart)@.columns[i as int].len() >= old(chart)@.columns[i as int].len(),
            final(chart)@.columns.len() == old(chart)@.columns.len(),
    {
        let ghost g = self.context();
        let ghost m = chart@;
        let rule = &self.grammar.rules[item.rule];
        proof {
            assert(g.rules[item.rule as int] == rule@);
            assert(g.rules[item.rule as int].origin.ix() < g.n);
        }
        let s = rule.origin;
        if item.origin != i {
            self.create_leo(s, item.origin, chart, Ghost(i as int), start_id);
            let ghost m1 = chart@;
            proof {
                assert(m1.trans[item.origin as int] == chart.transitives@[item.origin as int]@);
                earley_leo::lemma_find_trans(m1.trans[item.origin as int], s, 0);
                assert(earley_chart::row_ok(
                    m1,
                    item.origin as int,
                    m1.trans[item.origin as int],
                ));
            }
            let found = lookup(&chart.transitives[item.origin], s);
            if let Some(t) = found {
                proof {
                    let row = m1.trans[item.origin as int];
                    let k = choose|k: int| 0 <= k < row.len() && #[trigger] row[k] == (s, t);
                    assert(row[k].1 < m1.arena.len());
                }
                self.leap(chart, i, stack, t, id);
                return 0;
            }
            if self.shortcuts && s == start_id && item.origin == 0 && self.waits_alone(
                chart,
                Ghost(i as int),
                s,
                start_id,
            ) {
                self.advance_waiters(chart, i, stack, item.origin, s, id);
                return 0;
            }
        }
        self.advance_waiters(chart, i, stack, item.origin, s, id)
    }

    /// Closes column `i` under prediction and completion.
    #[verifier::rlimit(60)]
    pub(crate) fn predict_and_complete(
        &self,
        i: usize,
        chart: &mut Chart,
        start_id: SymbolId,
        scans: &mut u64,
    ) -> (n: Ghost<nat>)
        requires
            earley_chart::chart_ok(self.context(), old(chart)@, i as int),
        ensures
            closed_at(self.context(), old(chart)@, i, start_id, final(chart)@),
            closed_with(self.context(), old(chart)@, i, start_id, final(chart)@, n@),
            *final(scans) == perf::counted(*old(scans), n@),
            earley_chart::chart_ok(self.context(), final(chart)@, i as int),
            earley_forest::extends(old(chart)@.forest, final(chart)@.forest),
            final(chart)@.columns.len() == old(chart)@.columns.len(),
    {
        let ghost g = self.context();
        let ghost m0 = chart@;
        let mut stack: Vec<Item> = Vec::new();
        proof {
            assert(m0.columns[i as int] == chart.columns@[i as int]@);
        }
        let mut q: usize = 0;
        while q < chart.columns[i].len()
            invariant
                i < chart.columns@.len(),
                q <= chart.columns@[i as int]@.len(),
                stack@ == chart.columns@[i as int]@.take(q as int),
            decreases chart.columns@[i as int]@.len() - q,
        {
            stack.push(chart.columns[i][q]);
            proof {
                assert(stack@ =~= chart.columns@[i as int]@.take(q + 1));
            }
            q = q + 1;
        }
        let n_symbols: usize = self.grammar.symbols.len();
        let mut held: Vec<Option<usize>> = Vec::new();
        let mut h: usize = 0;
        while h < n_symbols
            invariant
                h <= n_symbols,
                held@.len() == h,
                forall|k: int| 0 <= k < h ==> #[trigger] held@[k] is None,
            decreases n_symbols - h,
        {
            held.push(None);
            h = h + 1;
        }
        let ghost from = begun(g, m0, i as int);
        let ghost mut steps: nat = 0;
        let ghost mut examined: nat = 0;
        let ghost first = *scans;
        proof {
            perf::lemma_counted_nothing(first);
            assert(stack@ =~= from.stack);
            assert(held@ =~= from.held);
            assert(work_reaches(
                g,
                from,
                i,
                start_id,
                Work { chart: chart@, stack: stack@, held: held@, scans: examined },
                0,
            ));
            assert(earley_chart::items_ok(g, m0.forest, i as int, m0.columns[i as int]));
            assert(earley_forest::extends(m0.forest, m0.forest));
        }
        while stack.len() > 0
            invariant
                g == self.context(),
                *scans == perf::counted(first, examined),
                earley_chart::chart_ok(g, chart@, i as int),
                earley_chart::items_ok(g, chart@.forest, i as int, stack@),
                held@.len() == g.n,
                held_ok(chart@.forest, held@),
                earley_forest::extends(m0.forest, chart@.forest),
                chart@.columns.len() == m0.columns.len(),
                work_reaches(
                    g,
                    from,
                    i,
                    start_id,
                    Work { chart: chart@, stack: stack@, held: held@, scans: examined },
                    steps,
                ),
            decreases usize::MAX - chart@.columns[i as int].len(), stack.len(),
        {
            let ghost w = Work { chart: chart@, stack: stack@, held: held@, scans: examined };
            let ghost m = chart@;
            let last: usize = stack.len() - 1;
            let item = stack[last];
            stack.truncate(last);
            proof {
                assert(stack@ =~= w.stack.drop_last());
                assert(w.stack.last() == item);
                assert(earley_chart::item_ok(g, m.forest, i as int, w.stack[last as int]));
                assert(g.rules[item.rule as int] == self.grammar.rules@[item.rule as int]@);
                assert forall|k: int| 0 <= k < stack@.len() implies earley_chart::item_ok(
                    g,
                    m.forest,
                    i as int,
                    #[trigger] stack@[k],
                ) by {
                    assert(earley_chart::item_ok(g, m.forest, i as int, w.stack[k]));
                }
            }
            let ghost rest = stack@;
            match self.expect(&item) {
                None => {
                    let id = self.complete_node(chart, i, item);
                    let ghost m1 = chart@;
                    proof {
                        earley_chart::lemma_items_extend(g, m.forest, m1.forest, i as int, rest);
                        lemma_held_extends(m.forest, m1.forest, held@);
                        earley_forest::lemma_ref_extends(m.forest, m1.forest, item.node);
                        assert(g.rules[item.rule as int].origin.ix() < g.n);
                    }
                    let s = self.grammar.rules[item.rule].origin;
                    if item.origin == i {
                        let ghost before = held@;
                        held.set(s.index(), Some(id));
                        proof {
                            assert forall|k: int| 0 <= k < held@.len() implies (
                            match #[trigger] held@[k] {
                                Some(x) => x < m1.forest.nodes.len(),
                                None => true,
                            }) by {
                                if k != s.ix() {
                                    assert(held@[k] == before[k]);
                                }
                            }
                        }
                    }
                    let n: usize = self.complete(chart, i, &mut stack, item, id, start_id);
                    proof {
                        perf::lemma_counted(first, examined, n as nat);
                        examined = examined + n as nat;
                    }
                    *scans = perf::count(*scans, n as u64);
                    proof {
                        earley_forest::lemma_extends_trans(m.forest, m1.forest, chart@.forest);
                        lemma_held_extends(m1.forest, chart@.forest, held@);
                    }
                },
                Some(s) => {
                    if s.index() >= self.grammar.terminal_count {
                        proof {
                            assert(g.rules[item.rule as int].expansion[item.dot as int].ix() < g.n);
                        }
                        self.predict(chart, i, &mut stack, s);
                        let ghost m1 = chart@;
                        let ghost s1 = stack@;
                        let h = held[s.index()];
                        if let Some(id) = h {
                            proof {
                                assert(match held@[s.ix() as int] {
                                    Some(x) => x < m1.forest.nodes.len(),
                                    None => true,
                                });
                            }
                            self.advance(chart, i, &mut stack, item, ForestRef::Node(id));
                            proof {
                                earley_chart::lemma_grew_trans(
                                    m,
                                    rest,
                                    m1,
                                    s1,
                                    chart@,
                                    stack@,
                                    i as int,
                                );
                            }
                        } else {
                            proof {
                                assert(earley_forest::extends(m1.forest, m1.forest));
                            }
                        }
                        proof {
                            lemma_held_extends(m1.forest, chart@.forest, held@);
                        }
                    } else {
                        proof {
                            assert(earley_forest::extends(m.forest, m.forest));
                        }
                    }
                },
            }
            let n_items: usize = chart.columns[i].len();
            proof {
                assert(chart@.columns[i as int].len() == n_items);
                let v = Work { chart: chart@, stack: stack@, held: held@, scans: examined };
                assert(v == work_step(g, w, i, start_id));
                lemma_work_next(g, from, i, start_id, w, steps);
                steps = steps + 1;
                earley_forest::lemma_extends_trans(m0.forest, m.forest, chart@.forest);
            }
        }
        let n_links: usize = chart.arena.len();
        proof {
            assert(chart@.arena.len() == n_links);
            let v = Work { chart: chart@, stack: stack@, held: held@, scans: examined };
            assert(work_reaches(g, from, i, start_id, v, steps));
        }
        Ghost(examined)
    }
}

/// Whether what scanning has made is in order.
pub open spec fn scanned_ok(
    g: earley_chart::Context,
    s: Scanned,
    n_trans: nat,
    end: int,
) -> bool {
    &&& earley_forest::forest_ok(s.forest, g.rules.len(), n_trans)
    &&& earley_chart::items_ok(g, s.forest, end, s.column)
    &&& earley_chart::items_distinct(s.column)
    &&& earley_chart::items_ok(g, s.forest, end, s.scan)
    &&& forall|k: int|
        0 <= k < s.scan.len() ==> earley_chart::wants_terminal(g, #[trigger] s.scan[k])
}

/// Shelving an item keeps things in order.
pub proof fn lemma_shelved(
    g: earley_chart::Context,
    f: earley_forest::ForestModel,
    s: Scanned,
    item: Item,
    n_trans: nat,
    end: int,
)
    requires
        scanned_ok(g, s, n_trans, end),
        earley_forest::extends(s.forest, f),
        earley_forest::forest_ok(f, g.rules.len(), n_trans),
        earley_chart::item_ok(g, f, end, item),
    ensures
        scanned_ok(g, shelved(g, f, s.column, s.scan, item), n_trans, end),
{
    earley_chart::lemma_items_extend(g, s.forest, f, end, s.column);
    earley_chart::lemma_items_extend(g, s.forest, f, end, s.scan);
    let t = shelved(g, f, s.column, s.scan, item);
    assert forall|a: int, b: int| 0 <= a < b < t.column.len() implies !earley_chart::same_item(
        #[trigger] t.column[a],
        #[trigger] t.column[b],
    ) by {
        if b < s.column.len() {
            assert(!earley_chart::same_item(s.column[a], s.column[b]));
        } else {
            assert(!earley_chart::same_item(s.column[a], item));
        }
    }
}

/// The next chart is in order.
pub proof fn lemma_next_chart(
    g: earley_chart::Context,
    m: earley_chart::ChartModel,
    s: Scanned,
    i: int,
)
    requires
        earley_chart::chart_ok(g, m, i),
        m.columns.len() == i + 1,
        scanned_ok(g, s, m.arena.len(), i + 1),
        earley_forest::extends(m.forest, s.forest),
    ensures
        earley_chart::chart_ok(g, next_chart(m, s), i + 1),
{
    earley_chart::lemma_chart_forest(g, m, i, s.forest);
    let h = earley_chart::ChartModel { forest: s.forest, ..m };
    let n = next_chart(m, s);
    assert forall|c: int| 0 <= c < n.columns.len() implies earley_chart::items_ok(
        g,
        n.forest,
        c,
        #[trigger] n.columns[c],
    ) && earley_chart::items_distinct(n.columns[c]) by {
        if c < m.columns.len() {
            assert(earley_chart::items_ok(g, h.forest, c, h.columns[c]));
            assert(earley_chart::items_distinct(h.columns[c]));
        }
    }
    assert forall|t: int| 0 <= t < n.arena.len() implies earley_chart::link_ok(g, n, t) by {
        assert(earley_chart::link_ok(g, h, t));
    }
    assert forall|c: int| 0 <= c < n.trans.len() implies earley_chart::row_ok(
        n,
        c,
        #[trigger] n.trans[c],
    ) by {
        if c < m.trans.len() {
            assert(earley_chart::row_ok(h, c, h.trans[c]));
        }
    }
}

impl EarleyParser {
    /// Moves the items that wait for the token into the next column.
    #[verifier::rlimit(40)]
    pub(crate) fn scan(&self, token: &Token, chart: &mut Chart) -> (r: bool)
        requires
            old(chart)@.columns.len() > 0,
            earley_chart::chart_ok(
                self.context(),
                old(chart)@,
                old(chart)@.columns.len() - 1,
            ),
        ensures
            match scan_step(self.context(), old(chart)@, token@) {
                Some(n) => r && final(chart)@ == n && earley_chart::chart_ok(
                    self.context(),
                    n,
                    old(chart)@.columns.len() as int,
                ),
                None => !r,
            },
    {
        let ghost g = self.context();
        let ghost m = chart@;
        let ghost n_rules = g.rules.len();
        let ghost n_trans = m.arena.len();
        let end: usize = chart.columns.len();
        proof {
            earley_forest::lemma_token_added(m.forest, token@, n_rules, n_trans);
        }
        let tok: usize = chart.forest.add_token(token.copy());
        let ghost f1 = chart@.forest;
        let right = ForestRef::Tok(tok);
        let mut next_col: Vec<Item> = Vec::new();
        let mut next_scan: Vec<Item> = Vec::new();
        proof {
            assert(next_col@ =~= Seq::empty());
            assert(next_scan@ =~= Seq::empty());
            assert(earley_forest::extends(f1, f1));
        }
        let n: usize = chart.to_scan.len();
        let mut k: usize = 0;
        while k < n
            invariant
                k <= n,
                n == m.scan.len(),
                g == self.context(),
                n_rules == g.rules.len(),
                n_trans == m.arena.len(),
                end == m.columns.len(),
                end > 0,
                earley_chart::chart_ok(g, m, end - 1),
                chart@ == (earley_chart::ChartModel { forest: chart@.forest, ..m }),
                earley_forest::extends(m.forest, f1),
                earley_forest::extends(f1, chart@.forest),
                earley_forest::ref_ok(f1, right),
                scanned_ok(
                    g,
                    Scanned { forest: chart@.forest, column: next_col@, scan: next_scan@ },
                    n_trans,
                    end as int,
                ),
                (Scanned { forest: chart@.forest, column: next_col@, scan: next_scan@ })
                    == scanned(g, f1, m.scan, token@.type_id, right, end, k as nat),
            decreases n - k,
        {
            let o = chart.to_scan[k];
            let ghost fk = chart@.forest;
            proof {
                assert(m.scan == chart.to_scan@);
                assert(earley_chart::item_ok(g, m.forest, end - 1, m.scan[k as int]));
                earley_forest::lemma_extends_trans(m.forest, f1, fk);
                earley_forest::lemma_ref_extends(m.forest, fk, o.node);
                earley_forest::lemma_ref_extends(f1, fk, right);
            }
            if self.expect(&o) == Some(token.type_id) {
                let ghost s = Scanned { forest: fk, column: next_col@, scan: next_scan@ };
                let item = self.step_over(&mut chart.forest, o, right, end);
                proof {
                    earley_chart::lemma_moved(g, fk, o, right, end, n_trans, end as int);
                    lemma_shelved(g, chart@.forest, s, item, n_trans, end as int);
                    earley_forest::lemma_extends_trans(f1, fk, chart@.forest);
                    assert(chart@ == (earley_chart::ChartModel { forest: chart@.forest, ..m }));
                }
                if self.expects_terminal(&item) {
                    add_item(&mut next_scan, item);
                } else {
                    add_item(&mut next_col, item);
                }
            }
            k = k + 1;
        }
        if next_scan.len() == 0 && next_col.len() == 0 {
            return false;
        }
        let ghost s = Scanned { forest: chart@.forest, column: next_col@, scan: next_scan@ };
        proof {
            earley_forest::lemma_extends_trans(m.forest, f1, chart@.forest);
            lemma_next_chart(g, m, s, end - 1);
        }
        chart.columns.push(next_col);
        chart.to_scan = next_scan;
        chart.transitives.push(Vec::new());
        proof {
            assert(chart@.columns =~= m.columns.push(s.column));
            assert(chart@.trans =~= m.trans.push(Seq::empty()));
            assert(chart@ == next_chart(m, s));
        }
        true
    }

    /// A chart with the rules of the start symbol.
    pub(crate) fn start_chart(&self, start_id: SymbolId) -> (r: Chart)
        requires
            earley_chart::context_ok(self.context()),
        ensures
            r@ == started(self.context(), start_id),
            earley_chart::chart_ok(self.context(), r@, 0),
            r@.columns.len() == 1,
    {
        let mut columns: Vec<Vec<Item>> = Vec::new();
        columns.push(Vec::new());
        let mut transitives: Vec<Vec<(SymbolId, usize)>> = Vec::new();
        transitives.push(Vec::new());
        let mut chart = Chart {
            columns,
            to_scan: Vec::new(),
            forest: Forest::new(),
            transitives,
            arena: Vec::new(),
        };
        let mut stack: Vec<Item> = Vec::new();
        proof {
            assert(chart@.columns =~= seq![Seq::empty()]);
            assert(chart@.trans =~= seq![Seq::empty()]);
            assert(chart@.scan =~= Seq::empty());
            assert(chart@.arena =~= Seq::empty());
            assert(chart@ == blank_chart());
            assert(stack@ =~= Seq::empty());
        }
        self.predict(&mut chart, 0, &mut stack, start_id);
        chart
    }

    /// Builds the forest of the tokens; the work is counted.
    #[verifier::rlimit(60)]
    pub(crate) fn build_chart(
        &self,
        toks: &Vec<Token>,
        start_id: SymbolId,
        c: &mut Counters,
    ) -> (r: Result<(Forest, usize), ParseError>)
        requires
            earley_chart::context_ok(self.context()),
        ensures
            match r {
                Ok((f, root)) => forest_of(
                    self.context(),
                    start_id,
                    tree::token_models(toks@),
                    f@,
                    root,
                ) && forest_sound(self.context(), f@, root) && forest_counted(
                    self.context(),
                    start_id,
                    tree::token_models(toks@),
                    f@,
                    *old(c),
                    *final(c),
                ),
                Err(e) => chart_error(
                    self.context(),
                    start_id,
                    tree::token_models(toks@),
                    e@,
                ) && failure_counted(
                    self.context(),
                    start_id,
                    tree::token_models(toks@),
                    *old(c),
                    *final(c),
                ),
            },
    {
        let ghost g = self.context();
        let ghost tokens = tree::token_models(toks@);
        let n: usize = toks.len();
        let mut chart = self.start_chart(start_id);
        let first: u64 = c.completer_scan_steps;
        let mut steps: u64 = first;
        let Ghost(n0) = self.predict_and_complete(0, &mut chart, start_id, &mut steps);
        let ghost mut total: nat = n0;
        proof {
            assert(charted(g, start_id, tokens, 0, chart@));
            assert(charted_with(g, start_id, tokens, 0, chart@, total));
        }
        let mut i: usize = 0;
        while i < n
            invariant
                i <= n,
                n == tokens.len(),
                tokens == tree::token_models(toks@),
                g == self.context(),
                chart@.columns.len() == i + 1,
                earley_chart::chart_ok(g, chart@, i as int),
                charted(g, start_id, tokens, i as nat, chart@),
                charted_with(g, start_id, tokens, i as nat, chart@, total),
                steps == perf::counted(first, total),
                *c == *old(c),
                first == old(c).completer_scan_steps,
            decreases n - i,
        {
            let ghost before = chart@;
            let nodes: usize = chart.forest.nodes.len();
            proof {
                assert(tokens[i as int] == toks@[i as int]@);
            }
            if !self.scan(&toks[i], &mut chart) {
                let e = ParseError::unexpected_token(&toks[i], Vec::new());
                proof {
                    assert(text::texts(Seq::<String>::empty()) =~= Seq::empty());
                    assert(stuck_at(g, start_id, tokens, i as nat));
                    assert(charted_with(g, start_id, tokens, i as nat, before, total));
                }
                c.completer_scan_steps = steps;
                c.forest_nodes = perf::count(c.forest_nodes, nodes as u64);
                return Err(e);
            }
            let ghost mid = chart@;
            let Ghost(m) = self.predict_and_complete(i + 1, &mut chart, start_id, &mut steps);
            proof {
                assert(follows(g, start_id, tokens, i + 1, before, chart@));
                assert(((i + 1) as nat - 1) as nat == i as nat);
                assert(charted(g, start_id, tokens, (i + 1) as nat, chart@));
                assert(follows_with(g, start_id, tokens, i + 1, before, total, chart@, m));
                perf::lemma_counted(first, total, m);
                total = total + m;
                assert(charted_with(g, start_id, tokens, (i + 1) as nat, chart@, total));
            }
            i = i + 1;
        }
        let found = chart.forest.find(NodeKey::Sym(start_id), 0, n);
        match found {
            Some(root) => {
                proof {
                    lemma_arena_of(g, chart@, n as int);
                }
                let ghost m = chart@;
                self.load_leo_paths(&mut chart.forest, &chart.arena, root);
                proof {
                    assert(earley_paths::loaded(g, m.arena, m.forest, root, chart@.forest));
                    lemma_forest_limits(chart.forest);
                    assert(forest_of(g, start_id, tokens, chart@.forest, root));
                }
                c.completer_scan_steps = steps;
                c.forest_nodes = perf::count(c.forest_nodes, chart.forest.nodes.len() as u64);
                Ok((chart.forest, root))
            },
            None => {
                proof {
                    assert(unfinished(g, start_id, tokens));
                    assert(text::texts(Seq::<String>::empty()) =~= Seq::empty());
                }
                let (line, col) = if n == 0 {
                    (1usize, 1usize)
                } else {
                    let t = &toks[n - 1];
                    proof {
                        assert(tokens.last() == t@);
                    }
                    (
                        if t.end_line < t.line {
                            t.line
                        } else {
                            t.end_line
                        },
                        if t.end_column < t.column {
                            t.column
                        } else {
                            t.end_column
                        },
                    )
                };
                c.completer_scan_steps = steps;
                c.forest_nodes = perf::count(c.forest_nodes, chart.forest.nodes.len() as u64);
                Err(ParseError::unexpected_eof(line, col, Vec::new()))
            },
        }
    }
}

/// Whether everything in a finished forest points into it, the root too.
pub open spec fn forest_sound(
    g: earley_chart::Context,
    f: earley_forest::ForestModel,
    root: usize,
) -> bool {
    &&& root < f.nodes.len()
    &&& forall|i: int|
        0 <= i < f.nodes.len() ==> earley_forest::families_ok(
            f,
            g.rules.len(),
            #[trigger] f.nodes[i],
        )
}

/// The links of a chart are in order with respect to its forest.
pub proof fn lemma_arena_of(g: earley_chart::Context, m: earley_chart::ChartModel, i: int)
    requires
        earley_chart::chart_ok(g, m, i),
    ensures
        earley_paths::arena_ok(g, m.forest, m.arena),
{
    assert forall|t: int| 0 <= t < m.arena.len() implies ({
        let x = #[trigger] m.arena[t];
        &&& x.red.rule < g.rules.len()
        &&& x.red.dot < g.rules[x.red.rule as int].expansion.len()
        &&& earley_forest::ref_ok(m.forest, x.red.node)
        &&& match x.parent {
            Some(p) => p < t,
            None => true,
        }
    }) by {
        assert(earley_chart::link_ok(g, m, t));
    }
}

/// The nodes of a forest, and the families of each, can be numbered.
pub(crate) proof fn lemma_forest_limits(f: Forest)
    ensures
        earley_shape::within_limits(f@),
        f@.tokens.len() <= usize::MAX,
{
    assert(f@.tokens.len() == f.tokens.len());
    assert(f@.nodes.len() == f.nodes.len());
    assert forall|i: int| 0 <= i < f@.nodes.len() implies (#[trigger] f@.nodes[i]).families.len()
        <= usize::MAX by {
        assert(f@.nodes[i].families.len() == f.nodes@[i].families.len());
    }
}

} // verus!
