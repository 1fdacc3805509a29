//! Shortcuts for deterministic chains of completions, and the parts of the
//! forest that they leave out until they are asked for.

use vstd::prelude::*;
use crate::earley_chart;
use crate::earley_chart::{lookup, Chart, EarleyParser};
use crate::earley_forest;
use crate::earley_forest::{ForestRef, Item, Trans};
use crate::symbols::SymbolId;

verus! {

// ---------------------------------------------------------------------------
// Finding chains

/// Whether all that follows the symbol after the dot derives nothing but the
/// empty string, and the item does not lead from the start symbol to itself.
pub open spec fn quasi_complete(g: earley_chart::Context, item: Item, start: SymbolId) -> bool {
    let e = g.rules[item.rule as int].expansion;
    let origin = g.rules[item.rule as int].origin;
    &&& !(origin == start && e[item.dot as int] == start)
    &&& forall|j: int|
        item.dot < j < e.len() ==> g.eps_only[(#[trigger] e[j]).ix() as int] && !(origin == start
            && e[j] == start)
}

/// The item with its dot at the end.
pub open spec fn done_item(g: earley_chart::Context, o: Item) -> Item {
    Item {
        rule: o.rule,
        dot: g.rules[o.rule as int].expansion.len() as usize,
        origin: o.origin,
        node: ForestRef::Nothing,
    }
}

/// A chain of completions: its links so far, the link that it joins, and the
/// item at its top.
pub ghost struct Chain {
    pub made: Seq<(SymbolId, usize, Item)>,
    pub parent: Option<usize>,
    pub top: Option<Item>,
}

/// How many links a chain can have.
pub open spec fn chain_limit() -> nat {
    (usize::MAX + 1) as nat
}

/// Follows the chain of completions upward from `rec`, begun at column `col`:
/// as long as exactly one item waits for it there, and that item is as good as
/// complete. The start symbol over the whole input ends a chain.
pub open spec fn followed(
    g: earley_chart::Context,
    m: earley_chart::ChartModel,
    start: SymbolId,
    rec: SymbolId,
    col: usize,
    visited: Seq<(usize, SymbolId)>,
    made: Seq<(SymbolId, usize, Item)>,
    top: Option<Item>,
    fuel: nat,
) -> Chain
    decreases fuel,
{
    match earley_chart::find_trans(m.trans[col as int], rec, 0) {
        Some(t) => Chain { made, parent: Some(t), top: Some(m.arena[t as int].top) },
        None => {
            let waiters = earley_chart::waiting(g, m.columns[col as int], rec);
            if fuel == 0 || visited.contains((col, rec)) || (rec == start && col == 0)
                || waiters.len() != 1 || !quasi_complete(g, waiters[0], start) {
                Chain { made, parent: None, top }
            } else {
                let o = waiters[0];
                followed(
                    g,
                    m,
                    start,
                    g.rules[o.rule as int].origin,
                    o.origin,
                    visited.push((col, rec)),
                    made.push((rec, col, o)),
                    Some(done_item(g, o)),
                    (fuel - 1) as nat,
                )
            }
        },
    }
}

/// The chart with the links of a chain entered, the topmost first.
pub open spec fn linked(
    m: earley_chart::ChartModel,
    made: Seq<(SymbolId, usize, Item)>,
    parent: Option<usize>,
    top: Item,
) -> earley_chart::ChartModel
    decreases made.len(),
{
    if made.len() == 0 {
        m
    } else {
        let (rec, col, o) = made.last();
        let tid = m.arena.len() as usize;
        linked(
            earley_chart::ChartModel {
                arena: m.arena.push(
                    Trans { recognized: rec, key_start: col, red: o, parent, top },
                ),
                trans: m.trans.update(col as int, m.trans[col as int].push((rec, tid))),
                ..m
            },
            made.drop_last(),
            Some(tid),
            top,
        )
    }
}

/// The chart once the chain of completions from `rec`, begun at `col`, is
/// looked for; none is where shortcuts are not taken.
pub open spec fn leo_created(
    g: earley_chart::Context,
    m: earley_chart::ChartModel,
    rec: SymbolId,
    col: usize,
    start: SymbolId,
) -> earley_chart::ChartModel {
    if !g.shortcuts || earley_chart::find_trans(m.trans[col as int], rec, 0) is Some {
        m
    } else {
        let c = followed(
            g,
            m,
            start,
            rec,
            col,
            Seq::empty(),
            Seq::empty(),
            None,
            chain_limit(),
        );
        match c.top {
            None => m,
            Some(top) => linked(m, c.made, c.parent, top),
        }
    }
}

/// Whether the links of a chain are in order.
pub open spec fn made_ok(
    g: earley_chart::Context,
    m: earley_chart::ChartModel,
    made: Seq<(SymbolId, usize, Item)>,
    top: Option<Item>,
) -> bool {
    &&& forall|k: int|
        0 <= k < made.len() ==> {
            let (rec, col, o) = #[trigger] made[k];
            &&& rec.ix() < g.n
            &&& col < m.columns.len()
            &&& earley_chart::item_ok(g, m.forest, col as int, o)
            &&& o.dot < g.rules[o.rule as int].expansion.len()
            &&& top is Some
            &&& (top->0).origin <= col
        }
    &&& match top {
        Some(x) => earley_chart::item_ok(g, m.forest, x.origin as int, x)
            && earley_chart::is_done(g, x),
        None => true,
    }
}

/// A found link is in range and begins where it was looked for.
pub proof fn lemma_find_trans(row: Seq<(SymbolId, usize)>, s: SymbolId, from: int)
    requires
        0 <= from,
    ensures
        match earley_chart::find_trans(row, s, from) {
            Some(t) => exists|k: int| from <= k < row.len() && #[trigger] row[k] == (s, t),
            None => forall|k: int| from <= k < row.len() ==> (#[trigger] row[k]).0 != s,
        },
    decreases row.len() - from,
{
    if from < row.len() {
        if row[from].0 == s {
            assert(row[from] == (s, row[from].1));
        } else {
            lemma_find_trans(row, s, from + 1);
        }
    }
}

/// Entering the links of a chain keeps the chart in order.
pub proof fn lemma_linked(
    g: earley_chart::Context,
    m: earley_chart::ChartModel,
    i: int,
    made: Seq<(SymbolId, usize, Item)>,
    parent: Option<usize>,
    top: Item,
)
    requires
        earley_chart::chart_ok(g, m, i),
        made_ok(g, m, made, Some(top)),
        match parent {
            Some(p) => p < m.arena.len(),
            None => true,
        },
        linked(m, made, parent, top).arena.len() <= usize::MAX,
    ensures
        earley_chart::chart_ok(g, linked(m, made, parent, top), i),
        linked(m, made, parent, top).columns == m.columns,
        linked(m, made, parent, top).forest == m.forest,
        linked(m, made, parent, top).scan == m.scan,
        linked(m, made, parent, top).arena.len() == m.arena.len() + made.len(),
    decreases made.len(),
{
    if made.len() > 0 {
        let (rec, col, o) = made[made.len() - 1];
        assert(made.last() == made[made.len() - 1]);
        let tid = m.arena.len() as usize;
        let x = Trans { recognized: rec, key_start: col, red: o, parent, top };
        let n = earley_chart::ChartModel {
            arena: m.arena.push(x),
            trans: m.trans.update(col as int, m.trans[col as int].push((rec, tid))),
            ..m
        };
        lemma_linked_len(n, made.drop_last(), Some(tid), top);
        assert(m.arena.len() < usize::MAX);
        assert(earley_chart::chart_ok(g, n, i)) by {
            assert(earley_forest::forest_ok(n.forest, g.rules.len(), n.arena.len())) by {
                assert forall|k: int| 0 <= k < n.forest.nodes.len() implies
                    earley_forest::paths_ok(n.arena.len(), #[trigger] n.forest.nodes[k]) by {
                    assert(earley_forest::paths_ok(m.arena.len(), m.forest.nodes[k]));
                    assert forall|q: int| 0 <= q < n.forest.nodes[k].paths.len() implies (
                    #[trigger] n.forest.nodes[k].paths[q]).0 < n.arena.len() by {
                        assert(m.forest.nodes[k].paths[q].0 < m.arena.len());
                    }
                }
            }
            assert forall|t: int| 0 <= t < n.arena.len() implies earley_chart::link_ok(
                g,
                n,
                t,
            ) by {
                if t < m.arena.len() {
                    assert(earley_chart::link_ok(g, m, t));
                } else {
                    assert(n.arena[t] == x);
                    assert(earley_chart::item_ok(g, m.forest, col as int, o));
                }
            }
            assert forall|c: int| 0 <= c < n.trans.len() implies earley_chart::row_ok(
                n,
                c,
                #[trigger] n.trans[c],
            ) by {
                assert(earley_chart::row_ok(m, c, m.trans[c]));
                assert forall|k: int| 0 <= k < n.trans[c].len() implies {
                    &&& (#[trigger] n.trans[c][k]).1 < n.arena.len()
                    &&& n.arena[n.trans[c][k].1 as int].key_start == c
                    &&& n.arena[n.trans[c][k].1 as int].recognized == n.trans[c][k].0
                } by {
                    if k < m.trans[c].len() {
                        assert(n.trans[c][k] == m.trans[c][k]);
                        assert(m.trans[c][k].1 < m.arena.len());
                    }
                }
            }
        }
        assert(made_ok(g, n, made.drop_last(), Some(top))) by {
            assert forall|k: int| 0 <= k < made.drop_last().len() implies ({
                let (rec, col, o) = #[trigger] made.drop_last()[k];
                &&& rec.ix() < g.n
                &&& col < n.columns.len()
                &&& earley_chart::item_ok(g, n.forest, col as int, o)
                &&& o.dot < g.rules[o.rule as int].expansion.len()
                &&& top.origin <= col
            }) by {
                assert(made.drop_last()[k] == made[k]);
            }
        }
        lemma_linked(g, n, i, made.drop_last(), Some(tid), top);
    }
}

/// How many links a chain adds.
pub proof fn lemma_linked_len(
    m: earley_chart::ChartModel,
    made: Seq<(SymbolId, usize, Item)>,
    parent: Option<usize>,
    top: Item,
)
    ensures
        linked(m, made, parent, top).arena.len() == m.arena.len() + made.len(),
    decreases made.len(),
{
    if made.len() > 0 {
        let (rec, col, o) = made.last();
        let tid = m.arena.len() as usize;
        lemma_linked_len(
            earley_chart::ChartModel {
                arena: m.arena.push(
                    Trans { recognized: rec, key_start: col, red: o, parent, top },
                ),
                trans: m.trans.update(col as int, m.trans[col as int].push((rec, tid))),
                ..m
            },
            made.drop_last(),
            Some(tid),
            top,
        );
    }
}

impl EarleyParser {
    pub(crate) fn is_quasi_complete(&self, item: &Item, start_id: SymbolId) -> (r: bool)
        requires
            earley_chart::context_ok(self.context()),
            item.rule < self.grammar.rules@.len(),
            item.dot < self.context().rules[item.rule as int].expansion.len(),
        ensures
            r == quasi_complete(self.context(), *item, start_id),
    {
        let ghost g = self.context();
        let rule = &self.grammar.rules[item.rule];
        proof {
            assert(g.rules[item.rule as int] == rule@);
        }
        let from_start = rule.origin == start_id;
        if from_start && rule.expansion[item.dot] == start_id {
            return false;
        }
        let mut j: usize = item.dot + 1;
        while j < rule.expansion.len()
            invariant
                item.dot < j <= rule.expansion@.len(),
                g == self.context(),
                earley_chart::context_ok(g),
                item.rule < g.rules.len(),
                g.rules[item.rule as int] == rule@,
                from_start == (rule.origin == start_id),
                !(from_start && rule.expansion@[item.dot as int] == start_id),
                forall|q: int|
                    item.dot < q < j ==> g.eps_only[(#[trigger] rule@.expansion[q]).ix() as int]
                        && !(from_start && rule@.expansion[q] == start_id),
            decreases rule.expansion.len() - j,
        {
            let s = rule.expansion[j];
            proof {
                assert(g.rules[item.rule as int].expansion[j as int] == s);
                assert(s.ix() < g.n);
            }
            if !self.eps_only[s.index()] || (from_start && s == start_id) {
                proof {
                    let e = g.rules[item.rule as int].expansion;
                    assert(!(g.eps_only[e[j as int].ix() as int] && !(from_start && e[j as int]
                        == start_id)));
                }
                return false;
            }
            j = j + 1;
        }
        true
    }

    /// The items of a column that wait for `s`.
    pub(crate) fn waiters(&self, column: &Vec<Item>, s: SymbolId) -> (r: Vec<Item>)
        requires
            forall|k: int|
                0 <= k < column@.len() ==> (#[trigger] column@[k]).rule < self.grammar.rules@.len(),
        ensures
            r@ == earley_chart::waiting(self.context(), column@, s),
    {
        let ghost g = self.context();
        let mut r: Vec<Item> = Vec::new();
        let mut i: usize = 0;
        proof {
            assert(column@.take(0) =~= Seq::empty());
        }
        while i < column.len()
            invariant
                i <= column@.len(),
                g == self.context(),
                forall|k: int|
                    0 <= k < column@.len() ==> (#[trigger] column@[k]).rule
                        < self.grammar.rules@.len(),
                r@ == earley_chart::waiting(g, column@.take(i as int), s),
            decreases column.len() - i,
        {
            let x = column[i];
            proof {
                assert(column@.take(i + 1).drop_last() =~= column@.take(i as int));
                assert(column@.take(i + 1).last() == x);
            }
            if self.expect(&x) == Some(s) {
                r.push(x);
            }
            i = i + 1;
        }
        proof {
            assert(column@.take(column@.len() as int) =~= column@);
        }
        r
    }

    /// Looks for the chain of completions from `recognized`, begun at column
    /// `start`, and enters its links.
    #[verifier::rlimit(60)]
    pub(crate) fn create_leo(
        &self,
        recognized: SymbolId,
        start: usize,
        chart: &mut Chart,
        Ghost(i): Ghost<int>,
        start_id: SymbolId,
    )
        requires
            earley_chart::chart_ok(self.context(), old(chart)@, i),
            recognized.ix() < self.context().n,
            start < old(chart)@.columns.len(),
        ensures
            final(chart)@ == leo_created(
                self.context(),
                old(chart)@,
                recognized,
                start,
                start_id,
            ),
            earley_chart::chart_ok(self.context(), final(chart)@, i),
            final(chart)@.columns == old(chart)@.columns,
            final(chart)@.forest == old(chart)@.forest,
            final(chart)@.scan == old(chart)@.scan,
    {
        let ghost g = self.context();
        let ghost m = chart@;
        proof {
            assert(m.trans[start as int] == chart.transitives@[start as int]@);
        }
        if !self.shortcuts || lookup(&chart.transitives[start], recognized).is_some() {
            return;
        }
        let mut visited: Vec<(usize, SymbolId)> = Vec::new();
        let mut made: Vec<(SymbolId, usize, Item)> = Vec::new();
        let mut rec = recognized;
        let mut col: usize = start;
        let mut parent: Option<usize> = None;
        let mut top: Option<Item> = None;
        let ghost limit = chain_limit();
        proof {
            assert(visited@ =~= Seq::empty());
            assert(made@ =~= Seq::empty());
        }
        loop
            invariant_except_break
                rec.ix() < g.n,
                col < m.columns.len(),
                parent is None,
                limit == chain_limit(),
                made_ok(g, m, made@, top),
                top is Some ==> (top->0).origin == col,
                followed(
                    g,
                    m,
                    start_id,
                    recognized,
                    start,
                    Seq::empty(),
                    Seq::empty(),
                    None,
                    chain_limit(),
                ) == followed(
                    g,
                    m,
                    start_id,
                    rec,
                    col,
                    visited@,
                    made@,
                    top,
                    (limit - visited@.len()) as nat,
                ),
            invariant
                g == self.context(),
                m == chart@,
                chart@ == old(chart)@,
                earley_chart::chart_ok(g, m, i),
            ensures
                made_ok(g, m, made@, top),
                match parent {
                    Some(p) => p < m.arena.len(),
                    None => true,
                },
                followed(
                    g,
                    m,
                    start_id,
                    recognized,
                    start,
                    Seq::empty(),
                    Seq::empty(),
                    None,
                    chain_limit(),
                ) == (Chain { made: made@, parent, top }),
            decreases usize::MAX - visited.len(),
        {
            let ghost before = top;
            let n_visited: usize = visited.len();
            proof {
                assert(m.trans[col as int] == chart.transitives@[col as int]@);
                assert(m.columns[col as int] == chart.columns@[col as int]@);
                assert(earley_chart::items_ok(g, m.forest, col as int, m.columns[col as int]));
                lemma_find_trans(m.trans[col as int], rec, 0);
                earley_chart::lemma_waiting(g, m.columns[col as int], rec);
                assert forall|k: int|
                    0 <= k < chart.columns@[col as int]@.len() implies (
                #[trigger] chart.columns@[col as int]@[k]).rule < self.grammar.rules@.len() by {
                    assert(earley_chart::item_ok(
                        g,
                        m.forest,
                        col as int,
                        m.columns[col as int][k],
                    ));
                }
            }
            let found = lookup(&chart.transitives[col], rec);
            let waiters = self.waiters(&chart.columns[col], rec);
            if let Some(t) = found {
                proof {
                    assert(earley_chart::row_ok(m, col as int, m.trans[col as int]));
                    let k = choose|k: int|
                        0 <= k < m.trans[col as int].len() && #[trigger] m.trans[col as int][k] == (
                            rec,
                            t,
                        );
                    assert(earley_chart::link_ok(g, m, t as int));
                    assert(m.arena[t as int] == chart.arena@[t as int]);
                }
                parent = Some(t);
                top = Some(chart.arena[t].top);
                break;
            }
            let seen = has_pair(&visited, col, rec);
            if seen || (rec == start_id && col == 0) || waiters.len() != 1 {
                break;
            }
            let o = waiters[0];
            proof {
                assert(m.columns[col as int].contains(earley_chart::waiting(
                    g,
                    m.columns[col as int],
                    rec,
                )[0]));
                let k = choose|k: int|
                    0 <= k < m.columns[col as int].len() && m.columns[col as int][k] == o;
                assert(earley_chart::item_ok(g, m.forest, col as int, m.columns[col as int][k]));
            }
            if !self.is_quasi_complete(&o, start_id) {
                break;
            }
            let rule = &self.grammar.rules[o.rule];
            proof {
                assert(g.rules[o.rule as int] == rule@);
                assert(g.rules[o.rule as int].origin.ix() < g.n);
            }
            let ghost made0 = made@;
            let ghost visited0 = visited@;
            visited.push((col, rec));
            made.push((rec, col, o));
            top = Some(
                Item {
                    rule: o.rule,
                    dot: rule.expansion.len(),
                    origin: o.origin,
                    node: ForestRef::Nothing,
                },
            );
            proof {
                assert(top == Some(done_item(g, o)));
                assert forall|k: int| 0 <= k < made@.len() implies ({
                    let (rec, col, o) = #[trigger] made@[k];
                    &&& rec.ix() < g.n
                    &&& col < m.columns.len()
                    &&& earley_chart::item_ok(g, m.forest, col as int, o)
                    &&& o.dot < g.rules[o.rule as int].expansion.len()
                    &&& top is Some
                    &&& (top->0).origin <= col
                }) by {
                    if k < made0.len() {
                        assert(made@[k] == made0[k]);
                    }
                }
            }
            rec = rule.origin;
            col = o.origin;
        }
        let ghost c = Chain { made: made@, parent, top };
        match top {
            None => {},
            Some(top) => {
                let ghost full = linked(m, c.made, c.parent, top);
                loop
                    invariant
                        g == self.context(),
                        earley_chart::chart_ok(g, chart@, i),
                        made_ok(g, chart@, made@, Some(top)),
                        match parent {
                            Some(p) => p < chart@.arena.len(),
                            None => true,
                        },
                        full == linked(chart@, made@, parent, top),
                        chart@.columns == m.columns,
                        chart@.forest == m.forest,
                        chart@.scan == m.scan,
                    ensures
                        chart@ == full,
                        earley_chart::chart_ok(g, chart@, i),
                    decreases made.len(),
                {
                    let ghost before = chart@;
                    let ghost given = made@;
                    let popped = made.pop();
                    match popped {
                        None => {
                            break;
                        },
                        Some((rec, col, o)) => {
                            let tid: usize = chart.arena.len();
                            proof {
                                assert(given.last() == (rec, col, o));
                                assert(given[given.len() - 1] == (rec, col, o));
                                assert(made@ =~= given.drop_last());
                            }
                            let x = Trans { recognized: rec, key_start: col, red: o, parent, top };
                            chart.arena.push(x);
                            let n_arena: usize = chart.arena.len();
                            let row = &mut chart.transitives[col];
                            row.push((rec, tid));
                            proof {
                                assert(chart@.trans =~= before.trans.update(
                                    col as int,
                                    before.trans[col as int].push((rec, tid)),
                                ));
                                assert(chart@.columns =~= before.columns);
                                lemma_one_link(g, before, i, rec, col, o, parent, top);
                                assert forall|k: int| 0 <= k < made@.len() implies ({
                                    let (rec, col, o) = #[trigger] made@[k];
                                    &&& rec.ix() < g.n
                                    &&& col < chart@.columns.len()
                                    &&& earley_chart::item_ok(g, chart@.forest, col as int, o)
                                    &&& o.dot < g.rules[o.rule as int].expansion.len()
                                    &&& top.origin <= col
                                }) by {
                                    assert(made@[k] == given[k]);
                                }
                            }
                            parent = Some(tid);
                        },
                    }
                }
            },
        }
    }
}

proof fn lemma_one_link(
    g: earley_chart::Context,
    m: earley_chart::ChartModel,
    i: int,
    rec: SymbolId,
    col: usize,
    o: Item,
    parent: Option<usize>,
    top: Item,
)
    requires
        earley_chart::chart_ok(g, m, i),
        made_ok(g, m, seq![(rec, col, o)], Some(top)),
        match parent {
            Some(p) => p < m.arena.len(),
            None => true,
        },
        m.arena.len() < usize::MAX,
    ensures
        earley_chart::chart_ok(
            g,
            (earley_chart::ChartModel {
                arena: m.arena.push(
                    Trans { recognized: rec, key_start: col, red: o, parent, top },
                ),
                trans: m.trans.update(
                    col as int,
                    m.trans[col as int].push((rec, m.arena.len() as usize)),
                ),
                ..m
            }),
            i,
        ),
{
    let made = seq![(rec, col, o)];
    lemma_linked_len(m, made, parent, top);
    lemma_linked(g, m, i, made, parent, top);
    assert(made.drop_last() =~= Seq::empty());
    let n = earley_chart::ChartModel {
        arena: m.arena.push(Trans { recognized: rec, key_start: col, red: o, parent, top }),
        trans: m.trans.update(
            col as int,
            m.trans[col as int].push((rec, m.arena.len() as usize)),
        ),
        ..m
    };
    assert(linked(n, Seq::empty(), Some(m.arena.len() as usize), top) == n);
    assert(linked(m, made, parent, top) == n);
}

fn has_pair(v: &Vec<(usize, SymbolId)>, col: usize, rec: SymbolId) -> (r: bool)
    ensures
        r == v@.contains((col, rec)),
{
    let mut i: usize = 0;
    while i < v.len()
        invariant
            i <= v@.len(),
            forall|k: int| 0 <= k < i ==> #[trigger] v@[k] != (col, rec),
        decreases v.len() - i,
    {
        if v[i].0 == col && v[i].1 == rec {
            proof {
                assert(v@[i as int] == (col, rec));
            }
            return true;
        }
        i = i + 1;
    }
    false
}

} // verus!
