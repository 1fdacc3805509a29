//! Earley parsing without a lexer of its own: at each character the terminals
//! that the parser expects there are matched.

use vstd::prelude::*;
use crate::agreement;
use crate::earley;
use crate::earley_carry;
use crate::earley_chart;
use crate::earley_chart::{add_item, Chart, EarleyParser};
use crate::earley_forest;
use crate::earley_forest::{Forest, ForestRef, Item, NodeKey, Packed, Trans};
use crate::earley_paths;
use crate::earley_recognizer;
use crate::earley_shape;
use crate::earley_shown;
use crate::earley_text;
use crate::earley_tree;
use crate::error;
use crate::error::ParseError;
use crate::lalr;
use crate::lexer;
use crate::lexer::{slice_text, DynamicMatcher, Place};
use crate::perf;
use crate::perf::Counters;
use crate::symbols;
use crate::symbols::SymbolId;
use crate::text;
use crate::text::{chars_of, owned};
use crate::text_laws;
use crate::tree;
use crate::tree::{ParseTree, Token};
use crate::tree_builder;

verus! {

// ---------------------------------------------------------------------------
// Model

/// What happens at the step where a match ends: an item moves over the token,
/// or stands past what is ignored.
pub enum Delayed {
    Tok { item: Item, token: Token },
    Carry { item: Item },
}

/// The mathematical content of what happens at the end of a match.
pub ghost enum DelayedModel {
    Tok(Item, tree::TokenModel),
    Carry(Item),
}

impl View for Delayed {
    type V = DelayedModel;

    open spec fn view(&self) -> DelayedModel {
        match *self {
            Delayed::Tok { item, token } => DelayedModel::Tok(item, token@),
            Delayed::Carry { item } => DelayedModel::Carry(item),
        }
    }
}

/// The contents of what happens at a step.
pub open spec fn delayed_models(s: Seq<Delayed>) -> Seq<DelayedModel> {
    Seq::new(s.len(), |i: int| s[i]@)
}

/// The contents of what happens at each step that something is kept for.
pub open spec fn pending_models(s: Seq<Option<Vec<Delayed>>>) -> Seq<Option<Seq<DelayedModel>>> {
    Seq::new(
        s.len(),
        |i: int|
            match s[i] {
                Some(v) => Some(delayed_models(v@)),
                None => None,
            },
    )
}

/// A text, how its terminals match, and whether shorter matches count too.
pub ghost struct Input {
    pub matcher: lexer::MatcherModel,
    pub text: Seq<char>,
    pub complete: bool,
}

/// The place of a step.
pub open spec fn place_at(s: Seq<char>, i: int) -> Place {
    lexer::past(lexer::origin_place(), s.take(i))
}

/// What is kept for a step, nothing at first.
pub open spec fn kept_for(p: Seq<Option<Seq<DelayedModel>>>, e: int) -> Seq<DelayedModel> {
    match p[e] {
        Some(s) => s,
        None => Seq::empty(),
    }
}

/// One more thing kept for a step, where there is such a step.
pub open spec fn delayed(
    p: Seq<Option<Seq<DelayedModel>>>,
    e: int,
    d: DelayedModel,
) -> Seq<Option<Seq<DelayedModel>>> {
    if 0 <= e < p.len() {
        p.update(e, Some(kept_for(p, e).push(d)))
    } else {
        p
    }
}

/// A step for which something may be kept, where there is such a step.
pub open spec fn opened(
    p: Seq<Option<Seq<DelayedModel>>>,
    e: int,
) -> Seq<Option<Seq<DelayedModel>>> {
    if 0 <= e < p.len() {
        p.update(e, Some(kept_for(p, e)))
    } else {
        p
    }
}

/// The token of a match of `term` at step `i`.
pub open spec fn token_from(
    input: Input,
    term: SymbolId,
    value: Seq<char>,
    i: int,
) -> tree::TokenModel {
    lexer::token_at(input.matcher.terminals, (term, value), place_at(input.text, i))
}

/// What the first `k` shorter pieces of the text from step `i` on match.
pub open spec fn shorter_queued(
    input: Input,
    item: Item,
    term: SymbolId,
    i: int,
    p: Seq<Option<Seq<DelayedModel>>>,
    k: nat,
) -> Seq<Option<Seq<DelayedModel>>>
    decreases k,
{
    if k == 0 {
        p
    } else {
        let before = shorter_queued(input, item, term, i, p, (k - 1) as nat);
        match lexer::terminal_match(
            input.matcher,
            term,
            Seq::empty(),
            input.text.subrange(i, i + k),
            0,
        ) {
            Some(v) => delayed(
                before,
                (i + v.len()) as int,
                DelayedModel::Tok(item, token_from(input, term, v, i)),
            ),
            None => before,
        }
    }
}

/// What an item that waits for a terminal makes of the text at step `i`.
pub open spec fn item_queued(
    g: earley_chart::Context,
    input: Input,
    item: Item,
    i: int,
    p: Seq<Option<Seq<DelayedModel>>>,
) -> Seq<Option<Seq<DelayedModel>>> {
    match earley_chart::expected(g, item) {
        None => p,
        Some(term) => match lexer::terminal_match(
            input.matcher,
            term,
            input.text.take(i),
            input.text.skip(i),
            0,
        ) {
            None => p,
            Some(v) => {
                let q = delayed(
                    p,
                    (i + v.len()) as int,
                    DelayedModel::Tok(item, token_from(input, term, v, i)),
                );
                if input.complete {
                    shorter_queued(input, item, term, i, q, (v.len() - 1) as nat)
                } else {
                    q
                }
            },
        },
    }
}

/// What the first `k` items that wait for a terminal make of the text.
pub open spec fn items_queued(
    g: earley_chart::Context,
    input: Input,
    items: Seq<Item>,
    i: int,
    p: Seq<Option<Seq<DelayedModel>>>,
    k: nat,
) -> Seq<Option<Seq<DelayedModel>>>
    decreases k,
{
    if k == 0 {
        p
    } else {
        item_queued(
            g,
            input,
            items[k - 1],
            i,
            items_queued(g, input, items, i, p, (k - 1) as nat),
        )
    }
}

/// The first `k` items carried to step `e`.
pub open spec fn all_carried(
    items: Seq<Item>,
    e: int,
    p: Seq<Option<Seq<DelayedModel>>>,
    k: nat,
) -> Seq<Option<Seq<DelayedModel>>>
    decreases k,
{
    if k == 0 {
        p
    } else {
        delayed(
            all_carried(items, e, p, (k - 1) as nat),
            e,
            DelayedModel::Carry(items[k - 1]),
        )
    }
}

/// Whether an item is the start symbol complete from the beginning.
pub open spec fn is_whole(g: earley_chart::Context, start: SymbolId, x: Item) -> bool {
    earley_chart::is_done(g, x) && x.origin == 0 && g.rules[x.rule as int].origin == start
}

/// Those of the first `k` items that are the whole start symbol, carried to
/// step `e`.
pub open spec fn wholes_carried(
    g: earley_chart::Context,
    start: SymbolId,
    items: Seq<Item>,
    e: int,
    p: Seq<Option<Seq<DelayedModel>>>,
    k: nat,
) -> Seq<Option<Seq<DelayedModel>>>
    decreases k,
{
    if k == 0 {
        p
    } else {
        let before = wholes_carried(g, start, items, e, p, (k - 1) as nat);
        if is_whole(g, start, items[k - 1]) {
            delayed(before, e, DelayedModel::Carry(items[k - 1]))
        } else {
            before
        }
    }
}

/// What the first `k` ignored terminals make of the text at step `i`: all items
/// stand past what they match.
pub open spec fn ignored_queued(
    g: earley_chart::Context,
    start: SymbolId,
    input: Input,
    m: earley_chart::ChartModel,
    i: int,
    p: Seq<Option<Seq<DelayedModel>>>,
    k: nat,
) -> Seq<Option<Seq<DelayedModel>>>
    decreases k,
{
    if k == 0 {
        p
    } else {
        let before = ignored_queued(g, start, input, m, i, p, (k - 1) as nat);
        match lexer::terminal_match(
            input.matcher,
            input.matcher.ignore[k - 1],
            input.text.take(i),
            input.text.skip(i),
            0,
        ) {
            None => before,
            Some(v) => {
                let e = (i + v.len()) as int;
                wholes_carried(
                    g,
                    start,
                    m.columns[i],
                    e,
                    all_carried(m.scan, e, opened(before, e), m.scan.len()),
                    m.columns[i].len(),
                )
            },
        }
    }
}

/// The forest with the first `k` families given to a node.
pub open spec fn families_copied(
    g: earley_chart::Context,
    f: earley_forest::ForestModel,
    id: int,
    families: Seq<Packed>,
    k: nat,
) -> earley_forest::ForestModel
    decreases k,
{
    if k == 0 {
        f
    } else {
        earley_forest::family_added(
            families_copied(g, f, id, families, (k - 1) as nat),
            id,
            families[k - 1],
            g.rules[families[k - 1].rule as int].order,
        )
    }
}

/// The forest, and the item, once an item stands past what is ignored: the node
/// of the longer stretch has the derivations of the shorter one too.
pub open spec fn carried(
    g: earley_chart::Context,
    arena: Seq<Trans>,
    f: earley_forest::ForestModel,
    item: Item,
    end: usize,
) -> (earley_forest::ForestModel, Item) {
    match item.node {
        ForestRef::Node(id) => {
            let filled = earley_paths::materialized(g, f, arena, id as int);
            let (h, new) = earley_forest::got(
                filled,
                earley_chart::key_at(g, item.rule, item.dot as int),
                item.origin,
                end,
            );
            let families = h.nodes[id as int].families;
            (
                if id != new {
                    families_copied(g, h, new, families, families.len())
                } else {
                    h
                },
                Item { node: ForestRef::Node(new as usize), ..item },
            )
        },
        _ => (f, item),
    }
}

/// The outcome of the first `k` things that happen at a step.
pub open spec fn drained(
    g: earley_chart::Context,
    arena: Seq<Trans>,
    f: earley_forest::ForestModel,
    ds: Seq<DelayedModel>,
    end: usize,
    k: nat,
) -> earley_recognizer::Scanned
    decreases k,
{
    if k == 0 {
        earley_recognizer::Scanned { forest: f, column: Seq::empty(), scan: Seq::empty() }
    } else {
        let s = drained(g, arena, f, ds, end, (k - 1) as nat);
        let (h, item) = match ds[k - 1] {
            DelayedModel::Tok(item, token) => earley_chart::moved(
                g,
                earley_forest::token_added(s.forest, token),
                item,
                ForestRef::Tok(s.forest.tokens.len() as usize),
                end,
            ),
            DelayedModel::Carry(item) => carried(g, arena, s.forest, item, end),
        };
        earley_recognizer::shelved(g, h, s.column, s.scan, item)
    }
}

/// Whether nothing is kept for any step.
pub open spec fn nothing_kept(p: Seq<Option<Seq<DelayedModel>>>) -> bool {
    forall|e: int| 0 <= e < p.len() ==> #[trigger] p[e] is None
}

/// One character on: the chart with the next column, unless nothing reaches
/// any step from here, and what is kept for later steps.
pub open spec fn character_step(
    g: earley_chart::Context,
    start: SymbolId,
    input: Input,
    m: earley_chart::ChartModel,
    p: Seq<Option<Seq<DelayedModel>>>,
) -> (Option<earley_chart::ChartModel>, Seq<Option<Seq<DelayedModel>>>) {
    let i = m.columns.len() - 1;
    let q = ignored_queued(
        g,
        start,
        input,
        m,
        i,
        items_queued(g, input, m.scan, i, p, m.scan.len()),
        input.matcher.ignore.len(),
    );
    let ds = kept_for(q, i + 1);
    let rest = q.update(i + 1, None);
    let s = drained(g, m.arena, m.forest, ds, (i + 1) as usize, ds.len());
    if s.column.len() == 0 && s.scan.len() == 0 && nothing_kept(rest) {
        (None, rest)
    } else {
        (Some(earley_recognizer::next_chart(m, s)), rest)
    }
}

/// Nothing kept for any of `n` steps.
pub open spec fn none_kept(n: nat) -> Seq<Option<Seq<DelayedModel>>> {
    Seq::new(n, |i: int| None)
}

/// Whether `m` is the chart, and `p` is kept, once the first `i` characters are
/// passed and column `i` is closed.
pub open spec fn text_charted(
    g: earley_chart::Context,
    start: SymbolId,
    input: Input,
    i: nat,
    m: earley_chart::ChartModel,
    p: Seq<Option<Seq<DelayedModel>>>,
) -> bool
    decreases i,
{
    if i == 0 {
        earley_recognizer::closed_at(g, earley_recognizer::started(g, start), 0, start, m) && p
            == none_kept(input.text.len() + 1)
    } else {
        exists|m0: earley_chart::ChartModel, p0: Seq<Option<Seq<DelayedModel>>>|
            text_charted(g, start, input, (i - 1) as nat, m0, p0) && #[trigger] text_follows(
                g,
                start,
                input,
                i as usize,
                m0,
                p0,
                m,
                p,
            )
    }
}

/// Whether chart and what is kept follow from those one character before.
pub open spec fn text_follows(
    g: earley_chart::Context,
    start: SymbolId,
    input: Input,
    i: usize,
    m0: earley_chart::ChartModel,
    p0: Seq<Option<Seq<DelayedModel>>>,
    m: earley_chart::ChartModel,
    p: Seq<Option<Seq<DelayedModel>>>,
) -> bool {
    match character_step(g, start, input, m0, p0) {
        (Some(n), rest) => p == rest && earley_recognizer::closed_at(g, n, i, start, m),
        (None, _) => false,
    }
}

/// The same as `text_charted`, where completion examines `scans` waiting items in
/// all.
pub open spec fn text_charted_with(
    g: earley_chart::Context,
    start: SymbolId,
    input: Input,
    i: nat,
    m: earley_chart::ChartModel,
    p: Seq<Option<Seq<DelayedModel>>>,
    scans: nat,
) -> bool
    decreases i,
{
    if i == 0 {
        earley_recognizer::closed_with(
            g,
            earley_recognizer::started(g, start),
            0,
            start,
            m,
            scans,
        ) && p == none_kept(input.text.len() + 1)
    } else {
        exists|
            m0: earley_chart::ChartModel,
            p0: Seq<Option<Seq<DelayedModel>>>,
            a: nat,
            b: nat,
        |
            text_charted_with(g, start, input, (i - 1) as nat, m0, p0, a)
                && #[trigger] text_follows_with(g, start, input, i as usize, m0, p0, a, m, p, b)
                && scans == a + b
    }
}

/// Whether chart and what is kept follow from those one character before, where
/// completion examines `b` waiting items on top of `a`.
pub open spec fn text_follows_with(
    g: earley_chart::Context,
    start: SymbolId,
    input: Input,
    i: usize,
    m0: earley_chart::ChartModel,
    p0: Seq<Option<Seq<DelayedModel>>>,
    a: nat,
    m: earley_chart::ChartModel,
    p: Seq<Option<Seq<DelayedModel>>>,
    b: nat,
) -> bool {
    match character_step(g, start, input, m0, p0) {
        (Some(n), rest) => p == rest && earley_recognizer::closed_with(g, n, i, start, m, b),
        (None, _) => false,
    }
}

/// Whether `d` is `c` with the work counted that it takes to build the forest `f`
/// of a text.
pub open spec fn text_forest_counted(
    g: earley_chart::Context,
    start: SymbolId,
    input: Input,
    f: earley_forest::ForestModel,
    c: Counters,
    d: Counters,
) -> bool {
    exists|m: earley_chart::ChartModel, p: Seq<Option<Seq<DelayedModel>>>, scans: nat|
        #[trigger] text_charted_with(g, start, input, input.text.len(), m, p, scans) && d
            == earley_recognizer::chart_counted(c, scans, f.nodes.len())
}

/// Whether `d` is `c` with the work counted that it takes to find that a text is
/// no sentence.
pub open spec fn text_failure_counted(
    g: earley_chart::Context,
    start: SymbolId,
    input: Input,
    c: Counters,
    d: Counters,
) -> bool {
    exists|i: nat, m: earley_chart::ChartModel, p: Seq<Option<Seq<DelayedModel>>>, scans: nat|
        #[trigger] text_charted_with(g, start, input, i, m, p, scans) && (i == input.text.len()
            || i < input.text.len() && character_step(g, start, input, m, p).0 is None) && d
            == earley_recognizer::chart_counted(c, scans, m.forest.nodes.len())
}

/// Whether `d` is `c` with the work counted that parsing a text to the result `r`
/// takes.
pub open spec fn dynamic_counted(
    p: EarleyParser,
    input: Input,
    start: Option<Seq<char>>,
    resolve: bool,
    r: Result<tree::Node, error::ErrorModel>,
    c: Counters,
    d: Counters,
) -> bool {
    match lalr::resolved_start(p.grammar.start@, p.grammar.symbols@, start) {
        None => d == c,
        Some(s) => {
            ||| exists|f: earley_forest::ForestModel, root: usize, e: Counters|
                #[trigger] text_forest(p.context(), s, input, f, root)
                    && #[trigger] text_forest_counted(p.context(), s, input, f, c, e) && r
                    == earley::tree_of(p.grammar, f, root, s, resolve, true) && d
                    == earley::walk_counted(
                    e,
                    earley_tree::walk_work(
                        earley_tree::walk_of(p.grammar, f, resolve, true),
                        root as int,
                    ),
                )
            ||| match r {
                Ok(_) => false,
                Err(e) => text_error(p.context(), s, input, e) && text_failure_counted(
                    p.context(),
                    s,
                    input,
                    c,
                    d,
                ),
            }
        },
    }
}

/// Whether `f`, with root `root`, is the forest of a text.
pub open spec fn text_forest(
    g: earley_chart::Context,
    start: SymbolId,
    input: Input,
    f: earley_forest::ForestModel,
    root: usize,
) -> bool {
    exists|m: earley_chart::ChartModel, p: Seq<Option<Seq<DelayedModel>>>|
        #[trigger] text_charted(g, start, input, input.text.len(), m, p)
            && earley_forest::find_node(
            m.forest.nodes,
            NodeKey::Sym(start),
            0,
            input.text.len() as usize,
            0,
        ) == Some(root as int) && earley_paths::loaded(g, m.arena, m.forest, root, f)
}

/// Whether nothing leads on from step `i`.
pub open spec fn text_stuck(
    g: earley_chart::Context,
    start: SymbolId,
    input: Input,
    i: nat,
) -> bool {
    exists|m: earley_chart::ChartModel, p: Seq<Option<Seq<DelayedModel>>>|
        #[trigger] text_charted(g, start, input, i, m, p) && character_step(
            g,
            start,
            input,
            m,
            p,
        ).0 is None
}

/// Whether the whole text is passed without being a sentence.
pub open spec fn text_unfinished(
    g: earley_chart::Context,
    start: SymbolId,
    input: Input,
) -> bool {
    exists|m: earley_chart::ChartModel, p: Seq<Option<Seq<DelayedModel>>>|
        #[trigger] text_charted(g, start, input, input.text.len(), m, p)
            && earley_forest::find_node(
            m.forest.nodes,
            NodeKey::Sym(start),
            0,
            input.text.len() as usize,
            0,
        ) is None
}

/// The report of a character from which nothing leads on.
pub open spec fn stuck_error(s: Seq<char>, i: int) -> error::ErrorModel {
    let p = place_at(s, i);
    error::ErrorModel::UnexpectedCharacter {
        ch: s[i],
        line: p.line,
        col: p.col,
        pos: p.byte,
        expected: "valid token for the dynamic lexer"@,
    }
}

/// Whether `e` is the report of a text that is no sentence.
pub open spec fn text_error(
    g: earley_chart::Context,
    start: SymbolId,
    input: Input,
    e: error::ErrorModel,
) -> bool {
    ||| exists|i: nat|
        i < input.text.len() && #[trigger] text_stuck(g, start, input, i) && e == stuck_error(
            input.text,
            i as int,
        )
    ||| text_unfinished(g, start, input) && e == error::unexpected_eof_model(
        place_at(input.text, input.text.len() as int).line,
        place_at(input.text, input.text.len() as int).col,
        Seq::empty(),
    )
}

/// Whether a tree is the value of a derivation, by the start symbol, of tokens that
/// fill the text.
pub open spec fn is_text_tree(
    p: EarleyParser,
    start: SymbolId,
    input: Input,
    t: tree::Node,
) -> bool {
    exists|v: tree_builder::SlotModel| #[trigger]
        text_laws::is_text_value(
            p.grammar.models(),
            p.grammar.terminal_count as nat,
            p.grammar.propagate_positions,
            start,
            input,
            v,
        ) && t == earley::rooted(v, symbols::name_of(p.grammar.symbols@, start))
}

/// Whether a tree is, up to spans, that of a derivation, by the start symbol, of
/// tokens that fill the text.
pub open spec fn is_text_like(
    p: EarleyParser,
    start: SymbolId,
    input: Input,
    u: tree::Node,
) -> bool {
    text_laws::is_text_derived(
        p.grammar.models(),
        p.grammar.terminal_count as nat,
        p.grammar.propagate_positions,
        start,
        symbols::name_of(p.grammar.symbols@, start),
        input,
        u,
    )
}

/// Whether all that a tree shows are trees of derivations of tokens that fill the
/// text.
pub open spec fn shows_text(
    p: EarleyParser,
    start: SymbolId,
    input: Input,
    resolve: bool,
    t: tree::Node,
) -> bool {
    forall|u: tree::Node| #[trigger]
        earley_shown::picks(resolve, t, u) ==> is_text_like(p, start, input, u)
}

/// Whether `r` is the result of parsing a text from a start symbol: a tree exactly
/// where the text is a sentence, that of its forest. All that the tree shows are
/// derivations of tokens that fill the text; where ambiguity is resolved and spans
/// cover only what is kept or no rule is transparent, it is the value of such a
/// derivation, spans and all.
pub open spec fn text_result(
    p: EarleyParser,
    start: SymbolId,
    input: Input,
    resolve: bool,
    r: Result<tree::Node, error::ErrorModel>,
) -> bool {
    &&& r is Ok <==> earley_text::is_text_sentence(p.context(), start, input)
    &&& match r {
        Ok(t) => {
            &&& exists|f: earley_forest::ForestModel, root: usize|
                #[trigger] text_forest(p.context(), start, input, f, root) && r
                    == earley::tree_of(p.grammar, f, root, start, resolve, true)
            &&& resolve && agreement::spans_agree(p.grammar) ==> is_text_tree(p, start, input, t)
            &&& (resolve || agreement::shows_clearly(p.grammar, start)) ==> shows_text(
                p,
                start,
                input,
                resolve,
                t,
            )
        },
        Err(e) => text_error(p.context(), start, input, e),
    }
}

/// Whether `r` is the result of parsing a text; a start symbol that is not
/// configured is reported.
pub open spec fn dynamic_result(
    p: EarleyParser,
    input: Input,
    start: Option<Seq<char>>,
    resolve: bool,
    r: Result<tree::Node, error::ErrorModel>,
) -> bool {
    match lalr::resolved_start(p.grammar.start@, p.grammar.symbols@, start) {
        Some(id) => text_result(p, id, input, resolve, r),
        None => r == Err::<tree::Node, error::ErrorModel>(
            error::unexpected_eof_model(
                0,
                0,
                lalr::names_of(p.grammar.symbols@, p.grammar.start@),
            ),
        ),
    }
}

// ---------------------------------------------------------------------------
// Well-formedness

/// Whether what happens at step `e` can happen.
pub open spec fn delayed_ok(
    g: earley_chart::Context,
    f: earley_forest::ForestModel,
    e: int,
    d: DelayedModel,
) -> bool {
    match d {
        DelayedModel::Tok(x, _) => earley_chart::item_ok(g, f, e, x) && x.dot
            < g.rules[x.rule as int].expansion.len(),
        DelayedModel::Carry(x) => earley_chart::item_ok(g, f, e, x),
    }
}

/// Whether everything that is kept can happen.
pub open spec fn pending_ok(
    g: earley_chart::Context,
    f: earley_forest::ForestModel,
    p: Seq<Option<Seq<DelayedModel>>>,
) -> bool {
    forall|e: int, k: int|
        0 <= e < p.len() && 0 <= k < kept_for(p, e).len() ==> delayed_ok(
            g,
            f,
            e,
            #[trigger] kept_for(p, e)[k],
        )
}

proof fn lemma_delayed_ok(
    g: earley_chart::Context,
    f: earley_forest::ForestModel,
    p: Seq<Option<Seq<DelayedModel>>>,
    e: int,
    d: DelayedModel,
)
    requires
        pending_ok(g, f, p),
        0 <= e < p.len(),
        delayed_ok(g, f, e, d),
    ensures
        pending_ok(g, f, delayed(p, e, d)),
        delayed(p, e, d).len() == p.len(),
{
    let q = delayed(p, e, d);
    assert forall|x: int, k: int|
        0 <= x < q.len() && 0 <= k < kept_for(q, x).len() implies delayed_ok(
        g,
        f,
        x,
        #[trigger] kept_for(q, x)[k],
    ) by {
        if x != e {
            assert(kept_for(q, x) == kept_for(p, x));
            assert(delayed_ok(g, f, x, kept_for(p, x)[k]));
        } else if k < kept_for(p, e).len() {
            assert(delayed_ok(g, f, e, kept_for(p, e)[k]));
        }
    }
}

proof fn lemma_pending_extends(
    g: earley_chart::Context,
    f: earley_forest::ForestModel,
    h: earley_forest::ForestModel,
    p: Seq<Option<Seq<DelayedModel>>>,
)
    requires
        pending_ok(g, f, p),
        earley_forest::extends(f, h),
    ensures
        pending_ok(g, h, p),
{
    assert forall|e: int, k: int|
        0 <= e < p.len() && 0 <= k < kept_for(p, e).len() implies delayed_ok(
        g,
        h,
        e,
        #[trigger] kept_for(p, e)[k],
    ) by {
        assert(delayed_ok(g, f, e, kept_for(p, e)[k]));
        let x = match kept_for(p, e)[k] {
            DelayedModel::Tok(x, _) => x,
            DelayedModel::Carry(x) => x,
        };
        earley_forest::lemma_ref_extends(f, h, x.node);
    }
}

// ---------------------------------------------------------------------------
// Execution

fn delay(p: &mut Vec<Option<Vec<Delayed>>>, e: usize, d: Delayed)
    requires
        e < old(p)@.len(),
    ensures
        pending_models(final(p)@) == delayed(pending_models(old(p)@), e as int, d@),
        final(p)@.len() == old(p)@.len(),
{
    let ghost before = pending_models(p@);
    let ghost dm = d@;
    let slot = &mut p[e];
    let mut v = match slot.take() {
        Some(v) => v,
        None => Vec::new(),
    };
    let ghost kept = delayed_models(v@);
    v.push(d);
    proof {
        assert(delayed_models(v@) =~= kept.push(dm));
        assert(kept =~= kept_for(before, e as int));
    }
    *slot = Some(v);
    proof {
        assert(pending_models(p@) =~= delayed(before, e as int, dm));
    }
}

fn open_entry(p: &mut Vec<Option<Vec<Delayed>>>, e: usize)
    requires
        e < old(p)@.len(),
    ensures
        pending_models(final(p)@) == opened(pending_models(old(p)@), e as int),
        final(p)@.len() == old(p)@.len(),
{
    let ghost before = pending_models(p@);
    let slot = &mut p[e];
    let v = match slot.take() {
        Some(v) => v,
        None => Vec::new(),
    };
    let ghost kept = delayed_models(v@);
    proof {
        assert(kept =~= kept_for(before, e as int));
    }
    *slot = Some(v);
    proof {
        assert(pending_models(p@) =~= opened(before, e as int));
    }
}

fn take_entry(p: &mut Vec<Option<Vec<Delayed>>>, e: usize) -> (r: Vec<Delayed>)
    requires
        e < old(p)@.len(),
    ensures
        delayed_models(r@) == kept_for(pending_models(old(p)@), e as int),
        pending_models(final(p)@) == pending_models(old(p)@).update(e as int, None),
        final(p)@.len() == old(p)@.len(),
{
    let ghost before = pending_models(p@);
    let slot = &mut p[e];
    let v = match slot.take() {
        Some(v) => v,
        None => Vec::new(),
    };
    proof {
        assert(delayed_models(v@) =~= kept_for(before, e as int));
        assert(pending_models(p@) =~= before.update(e as int, None));
    }
    v
}

fn is_idle(p: &Vec<Option<Vec<Delayed>>>) -> (r: bool)
    ensures
        r == nothing_kept(pending_models(p@)),
{
    let mut i: usize = 0;
    while i < p.len()
        invariant
            i <= p@.len(),
            forall|k: int| 0 <= k < i ==> #[trigger] pending_models(p@)[k] is None,
        decreases p.len() - i,
    {
        if p[i].is_some() {
            proof {
                assert(pending_models(p@)[i as int] is Some);
            }
            return false;
        }
        i = i + 1;
    }
    true
}

fn make_token(matcher: &DynamicMatcher, term: SymbolId, value: String, p: Place) -> (r: Token)
    ensures
        r@ == lexer::token_at(matcher@.terminals, (term, value@), p),
{
    let q = p.walk(value.as_str());
    Token {
        type_id: term,
        type_: matcher.name(term),
        value,
        line: p.line,
        column: p.col,
        end_line: q.line,
        end_column: q.col,
        start_pos: p.pos,
        end_pos: q.pos,
    }
}

impl EarleyParser {
    fn queue_item(
        &self,
        matcher: &DynamicMatcher,
        complete: bool,
        chars: &Vec<char>,
        i: usize,
        place: Place,
        item: Item,
        pending: &mut Vec<Option<Vec<Delayed>>>,
        Ghost(f): Ghost<earley_forest::ForestModel>,
    )
        requires
            i < chars@.len(),
            place == place_at(chars@, i as int),
            old(pending)@.len() == chars@.len() + 1,
            item.rule < self.grammar.rules@.len(),
            earley_chart::item_ok(self.context(), f, i as int, item),
            pending_ok(self.context(), f, pending_models(old(pending)@)),
        ensures
            pending_models(final(pending)@) == item_queued(
                self.context(),
                Input { matcher: matcher@, text: chars@, complete },
                item,
                i as int,
                pending_models(old(pending)@),
            ),
            final(pending)@.len() == old(pending)@.len(),
            pending_ok(self.context(), f, pending_models(final(pending)@)),
    {
        let ghost g = self.context();
        let ghost input = Input { matcher: matcher@, text: chars@, complete };
        let ghost first = pending_models(pending@);
        let term = match self.expect(&item) {
            Some(t) => t,
            None => {
                return ;
            },
        };
        let n: usize = chars.len();
        let before = slice_text(chars, 0, i);
        let rest = slice_text(chars, i, n);
        proof {
            assert(chars@.subrange(0, i as int) =~= chars@.take(i as int));
            assert(chars@.subrange(i as int, n as int) =~= chars@.skip(i as int));
        }
        let value = match matcher.match_at(term, before.as_str(), rest.as_str()) {
            Some(v) => v,
            None => {
                return ;
            },
        };
        let len: usize = value.as_str().unicode_len();
        let ghost v = value@;
        let token = make_token(matcher, term, value, place);
        let ghost d = DelayedModel::Tok(item, token@);
        proof {
            lemma_delayed_ok(g, f, first, i + len, d);
        }
        delay(pending, i + len, Delayed::Tok { item, token });
        if !complete {
            return ;
        }
        let ghost base = pending_models(pending@);
        let none = String::new();
        proof {
            assert(none@ =~= Seq::empty());
        }
        let mut k: usize = 0;
        while k < len - 1
            invariant
                k <= len - 1,
                len >= 1,
                i + len <= n,
                n == chars@.len(),
                none@ == Seq::<char>::empty(),
                place == place_at(chars@, i as int),
                input == (Input { matcher: matcher@, text: chars@, complete }),
                g == self.context(),
                earley_chart::item_ok(g, f, i as int, item),
                earley_chart::expected(g, item) is Some,
                pending@.len() == n + 1,
                pending_ok(g, f, pending_models(pending@)),
                pending_models(pending@) == shorter_queued(
                    input,
                    item,
                    term,
                    i as int,
                    base,
                    k as nat,
                ),
            decreases len - k,
        {
            let piece = slice_text(chars, i, i + k + 1);
            proof {
                assert(piece@ == chars@.subrange(i as int, i + (k + 1)));
            }
            if let Some(short) = matcher.match_at(term, none.as_str(), piece.as_str()) {
                let m: usize = short.as_str().unicode_len();
                let token = make_token(matcher, term, short, place);
                proof {
                    lemma_delayed_ok(
                        g,
                        f,
                        pending_models(pending@),
                        i + m,
                        DelayedModel::Tok(item, token@),
                    );
                }
                delay(pending, i + m, Delayed::Tok { item, token });
            }
            k = k + 1;
        }
    }

    #[verifier::rlimit(30)]
    fn queue_ignored(
        &self,
        start: SymbolId,
        matcher: &DynamicMatcher,
        complete: bool,
        chars: &Vec<char>,
        i: usize,
        chart: &Chart,
        pending: &mut Vec<Option<Vec<Delayed>>>,
    )
        requires
            i < chars@.len(),
            chart@.columns.len() == i + 1,
            old(pending)@.len() == chars@.len() + 1,
            earley_chart::chart_ok(self.context(), chart@, i as int),
            pending_ok(self.context(), chart@.forest, pending_models(old(pending)@)),
        ensures
            pending_models(final(pending)@) == ignored_queued(
                self.context(),
                start,
                Input { matcher: matcher@, text: chars@, complete },
                chart@,
                i as int,
                pending_models(old(pending)@),
                matcher@.ignore.len(),
            ),
            final(pending)@.len() == old(pending)@.len(),
            pending_ok(self.context(), chart@.forest, pending_models(final(pending)@)),
    {
        let ghost g = self.context();
        let ghost m = chart@;
        let ghost f = m.forest;
        let ghost input = Input { matcher: matcher@, text: chars@, complete };
        let ghost first = pending_models(pending@);
        let n: usize = chars.len();
        let before = slice_text(chars, 0, i);
        let rest = slice_text(chars, i, n);
        proof {
            assert(chars@.subrange(0, i as int) =~= chars@.take(i as int));
            assert(chars@.subrange(i as int, n as int) =~= chars@.skip(i as int));
            assert(m.columns[i as int] == chart.columns@[i as int]@);
        }
        let mut q: usize = 0;
        while q < matcher.ignore.len()
            invariant
                q <= matcher@.ignore.len(),
                i < n,
                n == chars@.len(),
                before@ == chars@.take(i as int),
                rest@ == chars@.skip(i as int),
                g == self.context(),
                m == chart@,
                f == m.forest,
                m.columns.len() == i + 1,
                m.columns[i as int] == chart.columns@[i as int]@,
                input == (Input { matcher: matcher@, text: chars@, complete }),
                earley_chart::chart_ok(g, m, i as int),
                pending@.len() == n + 1,
                pending_ok(g, f, pending_models(pending@)),
                pending_models(pending@) == ignored_queued(
                    g,
                    start,
                    input,
                    m,
                    i as int,
                    first,
                    q as nat,
                ),
            decreases matcher.ignore.len() - q,
        {
            if let Some(v) = matcher.match_at(
                matcher.ignore[q],
                before.as_str(),
                rest.as_str(),
            ) {
                let len: usize = v.as_str().unicode_len();
                let e: usize = i + len;
                let ghost p0 = pending_models(pending@);
                open_entry(pending, e);
                let ghost p1 = pending_models(pending@);
                proof {
                    assert forall|x: int, k: int|
                        0 <= x < p1.len() && 0 <= k < kept_for(p1, x).len() implies delayed_ok(
                        g,
                        f,
                        x,
                        #[trigger] kept_for(p1, x)[k],
                    ) by {
                        assert(kept_for(p1, x) == kept_for(p0, x));
                        assert(delayed_ok(g, f, x, kept_for(p0, x)[k]));
                    }
                }
                let mut k: usize = 0;
                while k < chart.to_scan.len()
                    invariant
                        k <= m.scan.len(),
                        m == chart@,
                        f == m.forest,
                        i <= e < pending@.len(),
                        pending@.len() == n + 1,
                        earley_chart::chart_ok(g, m, i as int),
                        pending_ok(g, f, pending_models(pending@)),
                        pending_models(pending@) == all_carried(m.scan, e as int, p1, k as nat),
                    decreases chart.to_scan.len() - k,
                {
                    let item = chart.to_scan[k];
                    proof {
                        assert(m.scan[k as int] == item);
                        assert(earley_chart::item_ok(g, f, i as int, m.scan[k as int]));
                        lemma_delayed_ok(
                            g,
                            f,
                            pending_models(pending@),
                            e as int,
                            DelayedModel::Carry(item),
                        );
                    }
                    delay(pending, e, Delayed::Carry { item });
                    k = k + 1;
                }
                let ghost p2 = pending_models(pending@);
                let mut j: usize = 0;
                while j < chart.columns[i].len()
                    invariant
                        g == self.context(),
                        m == chart@,
                        f == m.forest,
                        m.columns.len() == i + 1,
                        m.columns[i as int] == chart.columns@[i as int]@,
                        j <= m.columns[i as int].len(),
                        i <= e < pending@.len(),
                        pending@.len() == n + 1,
                        earley_chart::chart_ok(g, m, i as int),
                        pending_ok(g, f, pending_models(pending@)),
                        pending_models(pending@) == wholes_carried(
                            g,
                            start,
                            m.columns[i as int],
                            e as int,
                            p2,
                            j as nat,
                        ),
                    decreases chart.columns@[i as int].len() - j,
                {
                    let item = chart.columns[i][j];
                    proof {
                        assert(earley_chart::items_ok(g, f, i as int, m.columns[i as int]));
                        assert(earley_chart::item_ok(g, f, i as int, m.columns[i as int][j as int]));
                        assert(g.rules[item.rule as int] == self.grammar.rules@[item.rule as int]@);
                    }
                    if self.is_complete(&item) && item.origin == 0
                        && self.grammar.rules[item.rule].origin == start {
                        proof {
                            lemma_delayed_ok(
                                g,
                                f,
                                pending_models(pending@),
                                e as int,
                                DelayedModel::Carry(item),
                            );
                        }
                        delay(pending, e, Delayed::Carry { item });
                    }
                    j = j + 1;
                }
            }
            q = q + 1;
        }
    }

    #[verifier::rlimit(30)]
    fn carry(
        &self,
        forest: &mut Forest,
        arena: &Vec<Trans>,
        item: Item,
        end: usize,
    ) -> (r: Item)
        requires
            earley_chart::context_ok(self.context()),
            earley_paths::arena_ok(self.context(), old(forest)@, arena@),
            earley_forest::forest_ok(old(forest)@, self.context().rules.len(), arena@.len()),
            earley_chart::item_ok(self.context(), old(forest)@, end as int, item),
        ensures
            (final(forest)@, r) == carried(
                self.context(),
                arena@,
                old(forest)@,
                item,
                end,
            ),
            earley_forest::forest_ok(final(forest)@, self.context().rules.len(), arena@.len()),
            earley_forest::extends(old(forest)@, final(forest)@),
            earley_paths::arena_ok(self.context(), final(forest)@, arena@),
            earley_chart::item_ok(self.context(), final(forest)@, end as int, r),
    {
        let ghost g = self.context();
        let ghost f0 = forest@;
        let ghost n_rules = g.rules.len();
        let ghost n_trans = arena@.len();
        match item.node {
            ForestRef::Node(id) => {
                self.materialize_leo_paths(forest, arena, id);
                let ghost f1 = forest@;
                let key = self.node_key(item.rule, item.dot);
                proof {
                    earley_forest::lemma_got(f1, key, item.origin, end, n_rules, n_trans);
                }
                let new = forest.get_or_create(key, item.origin, end);
                let ghost f2 = forest@;
                proof {
                    earley_forest::lemma_extends_trans(f0, f1, f2);
                }
                if id != new {
                    let mut families: Vec<Packed> = Vec::new();
                    let mut q: usize = 0;
                    proof {
                        assert(f2.nodes[id as int] == forest.nodes@[id as int]@);
                    }
                    while q < forest.nodes[id].families.len()
                        invariant
                            id < forest.nodes@.len(),
                            forest@ == f2,
                            f2.nodes[id as int].families == forest.nodes@[id as int].families@,
                            q <= f2.nodes[id as int].families.len(),
                            families@ == f2.nodes[id as int].families.take(q as int),
                        decreases f2.nodes[id as int].families.len() - q,
                    {
                        families.push(forest.nodes[id].families[q]);
                        proof {
                            assert(families@ =~= f2.nodes[id as int].families.take(q + 1));
                        }
                        q = q + 1;
                    }
                    proof {
                        let all = f2.nodes[id as int].families;
                        assert(all.take(all.len() as int) =~= all);
                        assert(earley_forest::families_ok(f2, n_rules, f2.nodes[id as int]));
                        assert(earley_forest::extends(f2, f2));
                    }
                    let mut k: usize = 0;
                    while k < families.len()
                        invariant
                            k <= families@.len(),
                            g == self.context(),
                            n_rules == g.rules.len(),
                            new < forest@.nodes.len(),
                            forall|x: int|
                                0 <= x < families@.len() ==> earley_forest::packed_ok(
                                    f2,
                                    n_rules,
                                    #[trigger] families@[x],
                                ),
                            earley_forest::forest_ok(forest@, n_rules, n_trans),
                            earley_forest::extends(f2, forest@),
                            forest@ == families_copied(g, f2, new as int, families@, k as nat),
                        decreases families.len() - k,
                    {
                        let p = families[k];
                        let ghost fk = forest@;
                        proof {
                            assert(earley_forest::packed_ok(f2, n_rules, families@[k as int]));
                            assert(g.rules[p.rule as int] == self.grammar.rules@[p.rule as int]@);
                            earley_forest::lemma_ref_extends(f2, fk, p.left);
                            earley_forest::lemma_ref_extends(f2, fk, p.right);
                            earley_forest::lemma_family_added(
                                fk,
                                new as int,
                                p,
                                g.rules[p.rule as int].order,
                                n_rules,
                                n_trans,
                            );
                        }
                        forest.add_family(new, p, self.grammar.rules[p.rule].order);
                        proof {
                            earley_forest::lemma_extends_trans(f2, fk, forest@);
                        }
                        k = k + 1;
                    }
                    proof {
                        earley_forest::lemma_extends_trans(f0, f2, forest@);
                    }
                }
                proof {
                    earley_paths::lemma_arena_extends(g, f0, forest@, arena@);
                }
                Item { node: ForestRef::Node(new), ..item }
            },
            _ => {
                proof {
                    assert(earley_forest::extends(f0, f0));
                }
                item
            },
        }
    }

    /// Passes one character: what matches at step `i` is kept for the step
    /// where it ends, and what ends at the next step makes the next column.
    #[verifier::rlimit(60)]
    pub(crate) fn scan_dynamic(
        &self,
        i: usize,
        start_id: SymbolId,
        chars: &Vec<char>,
        place: Place,
        matcher: &DynamicMatcher,
        complete_lex: bool,
        chart: &mut Chart,
        pending: &mut Vec<Option<Vec<Delayed>>>,
    ) -> (r: bool)
        requires
            i < chars@.len(),
            place == place_at(chars@, i as int),
            old(chart)@.columns.len() == i + 1,
            old(pending)@.len() == chars@.len() + 1,
            earley_chart::chart_ok(self.context(), old(chart)@, i as int),
            pending_ok(
                self.context(),
                old(chart)@.forest,
                pending_models(old(pending)@),
            ),
        ensures
            ({
                let (n, rest) = character_step(
                    self.context(),
                    start_id,
                    Input { matcher: matcher@, text: chars@, complete: complete_lex },
                    old(chart)@,
                    pending_models(old(pending)@),
                );
                &&& r == n is Some
                &&& pending_models(final(pending)@) == rest
                &&& n matches Some(m) ==> final(chart)@ == m && earley_chart::chart_ok(
                    self.context(),
                    m,
                    i + 1,
                ) && m.columns.len() == i + 2 && pending_ok(
                    self.context(),
                    m.forest,
                    rest,
                )
            }),
            final(pending)@.len() == old(pending)@.len(),
    {
        let ghost g = self.context();
        let ghost m = chart@;
        let ghost input = Input { matcher: matcher@, text: chars@, complete: complete_lex };
        let ghost first = pending_models(pending@);
        let ghost n_rules = g.rules.len();
        let ghost n_trans = m.arena.len();
        let mut k: usize = 0;
        while k < chart.to_scan.len()
            invariant
                k <= m.scan.len(),
                i < chars@.len(),
                place == place_at(chars@, i as int),
                g == self.context(),
                m == chart@,
                earley_chart::chart_ok(g, m, i as int),
                input == (Input { matcher: matcher@, text: chars@, complete: complete_lex }),
                pending@.len() == chars@.len() + 1,
                pending_ok(g, m.forest, pending_models(pending@)),
                pending_models(pending@) == items_queued(
                    g,
                    input,
                    m.scan,
                    i as int,
                    first,
                    k as nat,
                ),
            decreases chart.to_scan.len() - k,
        {
            let item = chart.to_scan[k];
            proof {
                assert(m.scan[k as int] == item);
                assert(earley_chart::item_ok(g, m.forest, i as int, m.scan[k as int]));
            }
            self.queue_item(
                matcher,
                complete_lex,
                chars,
                i,
                place,
                item,
                pending,
                Ghost(m.forest),
            );
            k = k + 1;
        }
        self.queue_ignored(start_id, matcher, complete_lex, chars, i, chart, pending);
        let ghost q = pending_models(pending@);
        let n: usize = chars.len();
        let end: usize = i + 1;
        let ds = take_entry(pending, end);
        let ghost dm = delayed_models(ds@);
        let ghost rest = pending_models(pending@);
        proof {
            assert forall|e: int, k: int|
                0 <= e < rest.len() && 0 <= k < kept_for(rest, e).len() implies delayed_ok(
                g,
                m.forest,
                e,
                #[trigger] kept_for(rest, e)[k],
            ) by {
                assert(e != end);
                assert(kept_for(rest, e) == kept_for(q, e));
                assert(delayed_ok(g, m.forest, e, kept_for(q, e)[k]));
            }
            assert forall|k: int| 0 <= k < dm.len() implies delayed_ok(
                g,
                m.forest,
                end as int,
                #[trigger] dm[k],
            ) by {
                assert(delayed_ok(g, m.forest, end as int, kept_for(q, end as int)[k]));
            }
            earley_recognizer::lemma_arena_of(g, m, i as int);
            assert(earley_forest::extends(m.forest, m.forest));
        }
        let mut next_col: Vec<Item> = Vec::new();
        let mut next_scan: Vec<Item> = Vec::new();
        proof {
            assert(next_col@ =~= Seq::empty());
            assert(next_scan@ =~= Seq::empty());
        }
        let mut j: usize = 0;
        while j < ds.len()
            invariant
                j <= ds@.len(),
                g == self.context(),
                earley_chart::context_ok(g),
                n_rules == g.rules.len(),
                n_trans == m.arena.len(),
                dm == delayed_models(ds@),
                chart@ == (earley_chart::ChartModel { forest: chart@.forest, ..m }),
                earley_forest::extends(m.forest, chart@.forest),
                earley_paths::arena_ok(g, chart@.forest, m.arena),
                forall|k: int|
                    0 <= k < dm.len() ==> delayed_ok(g, m.forest, end as int, #[trigger] dm[k]),
                earley_recognizer::scanned_ok(
                    g,
                    earley_recognizer::Scanned {
                        forest: chart@.forest,
                        column: next_col@,
                        scan: next_scan@,
                    },
                    n_trans,
                    end as int,
                ),
                (earley_recognizer::Scanned {
                    forest: chart@.forest,
                    column: next_col@,
                    scan: next_scan@,
                }) == drained(g, m.arena, m.forest, dm, end, j as nat),
            decreases ds.len() - j,
        {
            let ghost fk = chart@.forest;
            let ghost s = earley_recognizer::Scanned {
                forest: fk,
                column: next_col@,
                scan: next_scan@,
            };
            proof {
                assert(dm[j as int] == ds@[j as int]@);
                assert(delayed_ok(g, m.forest, end as int, dm[j as int]));
            }
            let item = match &ds[j] {
                Delayed::Tok { item, token } => {
                    proof {
                        earley_forest::lemma_ref_extends(m.forest, fk, item.node);
                        earley_forest::lemma_token_added(fk, token@, n_rules, n_trans);
                    }
                    let tok: usize = chart.forest.add_token(token.copy());
                    let ghost f1 = chart@.forest;
                    let right = ForestRef::Tok(tok);
                    proof {
                        earley_forest::lemma_ref_extends(fk, f1, item.node);
                    }
                    let moved = self.step_over(&mut chart.forest, *item, right, end);
                    proof {
                        earley_chart::lemma_moved(
                            g,
                            f1,
                            *item,
                            right,
                            end,
                            n_trans,
                            end as int,
                        );
                        earley_forest::lemma_extends_trans(fk, f1, chart@.forest);
                    }
                    moved
                },
                Delayed::Carry { item } => {
                    proof {
                        earley_forest::lemma_ref_extends(m.forest, fk, item.node);
                    }
                    self.carry(&mut chart.forest, &chart.arena, *item, end)
                },
            };
            proof {
                earley_recognizer::lemma_shelved(
                    g,
                    chart@.forest,
                    s,
                    item,
                    n_trans,
                    end as int,
                );
                earley_forest::lemma_extends_trans(m.forest, fk, chart@.forest);
                earley_paths::lemma_arena_extends(g, fk, chart@.forest, m.arena);
                assert(chart@ == (earley_chart::ChartModel { forest: chart@.forest, ..m }));
            }
            if self.expects_terminal(&item) {
                add_item(&mut next_scan, item);
            } else {
                add_item(&mut next_col, item);
            }
            j = j + 1;
        }
        if next_scan.len() == 0 && next_col.len() == 0 && is_idle(pending) {
            return false;
        }
        let ghost s = earley_recognizer::Scanned {
            forest: chart@.forest,
            column: next_col@,
            scan: next_scan@,
        };
        proof {
            earley_recognizer::lemma_next_chart(g, m, s, i as int);
            lemma_pending_extends(g, m.forest, s.forest, rest);
        }
        chart.columns.push(next_col);
        chart.to_scan = next_scan;
        chart.transitives.push(Vec::new());
        proof {
            assert(chart@.columns =~= m.columns.push(s.column));
            assert(chart@.trans =~= m.trans.push(Seq::empty()));
            assert(chart@ == earley_recognizer::next_chart(m, s));
        }
        true
    }

    /// Builds the forest of a text; the work is counted.
    #[verifier::rlimit(80)]
    pub(crate) fn build_chart_dynamic(
        &self,
        s: &str,
        start_id: SymbolId,
        matcher: &DynamicMatcher,
        complete_lex: bool,
        c: &mut Counters,
    ) -> (r: Result<(Forest, usize), ParseError>)
        requires
            self.wf(),
            self.grammar.terminal_count <= start_id.ix(),
        ensures
            match r {
                Ok((f, root)) => text_forest(
                    self.context(),
                    start_id,
                    Input { matcher: matcher@, text: s@, complete: complete_lex },
                    f@,
                    root,
                ) && earley_recognizer::forest_sound(self.context(), f@, root)
                    && text_laws::is_forest_of(
                    self.context(),
                    start_id,
                    Input { matcher: matcher@, text: s@, complete: complete_lex },
                    f@,
                    root,
                ) && earley_shape::within_limits(f@) && text_forest_counted(
                    self.context(),
                    start_id,
                    Input { matcher: matcher@, text: s@, complete: complete_lex },
                    f@,
                    *old(c),
                    *final(c),
                ),
                Err(e) => text_error(
                    self.context(),
                    start_id,
                    Input { matcher: matcher@, text: s@, complete: complete_lex },
                    e@,
                ) && !earley_text::is_text_sentence(
                    self.context(),
                    start_id,
                    Input { matcher: matcher@, text: s@, complete: complete_lex },
                ) && text_failure_counted(
                    self.context(),
                    start_id,
                    Input { matcher: matcher@, text: s@, complete: complete_lex },
                    *old(c),
                    *final(c),
                ),
            },
    {
        let ghost g = self.context();
        let chars = chars_of(s);
        let n: usize = chars.len();
        let ghost input = Input { matcher: matcher@, text: s@, complete: complete_lex };
        let mut pending: Vec<Option<Vec<Delayed>>> = Vec::new();
        let mut q: usize = 0;
        while q < n
            invariant
                q <= n,
                pending@.len() == q,
                forall|k: int| 0 <= k < q ==> #[trigger] pending@[k] is None,
            decreases n - q,
        {
            pending.push(None);
            q = q + 1;
        }
        pending.push(None);
        let mut place = Place::origin();
        let mut chart = self.start_chart(start_id);
        let first: u64 = c.completer_scan_steps;
        let mut scans: u64 = first;
        let Ghost(n0) = self.predict_and_complete(0, &mut chart, start_id, &mut scans);
        let ghost mut total: nat = n0;
        proof {
            assert(pending_models(pending@) =~= none_kept(s@.len() + 1));
            assert(s@.take(0) =~= Seq::empty());
            assert(text_charted(g, start_id, input, 0, chart@, pending_models(pending@)));
            earley_recognizer::lemma_forest_limits(chart.forest);
            earley_text::lemma_text_begun(g, start_id, input, chart@, pending_models(pending@));
            earley_carry::lemma_shape_begun(g, start_id, input, chart@, pending_models(pending@));
            assert(text_charted_with(
                g,
                start_id,
                input,
                0,
                chart@,
                pending_models(pending@),
                total,
            ));
            assert forall|e: int, k: int|
                0 <= e < pending_models(pending@).len() && 0 <= k < kept_for(
                    pending_models(pending@),
                    e,
                ).len() implies delayed_ok(
                g,
                chart@.forest,
                e,
                #[trigger] kept_for(pending_models(pending@), e)[k],
            ) by {
                assert(pending_models(pending@)[e] is None);
            }
        }
        let mut i: usize = 0;
        while i < n
            invariant
                i <= n,
                n == chars@.len(),
                chars@ == s@,
                input == (Input { matcher: matcher@, text: s@, complete: complete_lex }),
                g == self.context(),
                place == place_at(s@, i as int),
                self.wf(),
                start_id.ix() >= g.nt,
                chart@.columns.len() == i + 1,
                earley_chart::chart_ok(g, chart@, i as int),
                earley_text::is_text_full(
                    g,
                    start_id,
                    input,
                    chart@,
                    pending_models(pending@),
                    i as int,
                ),
                earley_carry::is_text_shape(
                    g,
                    start_id,
                    input,
                    chart@,
                    pending_models(pending@),
                    i as int,
                ),
                pending@.len() == n + 1,
                pending_ok(g, chart@.forest, pending_models(pending@)),
                text_charted(
                    g,
                    start_id,
                    input,
                    i as nat,
                    chart@,
                    pending_models(pending@),
                ),
                text_charted_with(
                    g,
                    start_id,
                    input,
                    i as nat,
                    chart@,
                    pending_models(pending@),
                    total,
                ),
                scans == perf::counted(first, total),
                *c == *old(c),
                first == old(c).completer_scan_steps,
            decreases n - i,
        {
            let nodes: usize = chart.forest.nodes.len();
            let ghost before = chart@;
            let ghost kept = pending_models(pending@);
            proof {
                earley_carry::lemma_shape_below(g, start_id, input, before, kept, i as int);
            }
            if !self.scan_dynamic(
                i,
                start_id,
                &chars,
                place,
                matcher,
                complete_lex,
                &mut chart,
                &mut pending,
            ) {
                proof {
                    assert(text_stuck(g, start_id, input, i as nat));
                    earley_text::lemma_text_stuck(g, start_id, input, before, kept, i as int);
                    assert(text_charted_with(
                        g,
                        start_id,
                        input,
                        i as nat,
                        before,
                        kept,
                        total,
                    ));
                }
                c.completer_scan_steps = scans;
                c.forest_nodes = perf::count(c.forest_nodes, nodes as u64);
                return Err(
                    ParseError::UnexpectedCharacter {
                        ch: chars[i],
                        line: place.line,
                        col: place.col,
                        pos: place.byte,
                        expected: owned("valid token for the dynamic lexer"),
                    },
                );
            }
            let ghost mid = chart@;
            let Ghost(m) = self.predict_and_complete(i + 1, &mut chart, start_id, &mut scans);
            proof {
                lemma_pending_extends(g, mid.forest, chart@.forest, pending_models(pending@));
                assert(text_follows(
                    g,
                    start_id,
                    input,
                    (i + 1) as usize,
                    before,
                    kept,
                    chart@,
                    pending_models(pending@),
                ));
                earley_recognizer::lemma_forest_limits(chart.forest);
                earley_text::lemma_text_next(
                    g,
                    start_id,
                    input,
                    before,
                    kept,
                    chart@,
                    pending_models(pending@),
                    i as int,
                );
                earley_carry::lemma_shape_next(
                    g,
                    start_id,
                    input,
                    before,
                    kept,
                    chart@,
                    pending_models(pending@),
                    i as int,
                );
                assert(((i + 1) as nat - 1) as nat == i as nat);
                assert(text_charted(
                    g,
                    start_id,
                    input,
                    (i + 1) as nat,
                    chart@,
                    pending_models(pending@),
                ));
                assert(text_follows_with(
                    g,
                    start_id,
                    input,
                    (i + 1) as usize,
                    before,
                    kept,
                    total,
                    chart@,
                    pending_models(pending@),
                    m,
                ));
                perf::lemma_counted(first, total, m);
                total = total + m;
                assert(text_charted_with(
                    g,
                    start_id,
                    input,
                    (i + 1) as nat,
                    chart@,
                    pending_models(pending@),
                    total,
                ));
                assert(s@.take(i + 1).drop_last() =~= s@.take(i as int));
                assert(s@.take(i + 1).last() == s@[i as int]);
            }
            place = place.step(chars[i]);
            i = i + 1;
        }
        let ghost kept = pending_models(pending@);
        proof {
            earley_text::lemma_text_root(g, start_id, input, chart@, kept);
        }
        match chart.forest.find(NodeKey::Sym(start_id), 0, n) {
            Some(root) => {
                proof {
                    earley_recognizer::lemma_arena_of(g, chart@, n as int);
                }
                let ghost m = chart@;
                self.load_leo_paths(&mut chart.forest, &chart.arena, root);
                proof {
                    assert(earley_paths::loaded(g, m.arena, m.forest, root, chart@.forest));
                    assert(text_charted(g, start_id, input, n as nat, m, kept));
                    assert(text_charted_with(g, start_id, input, n as nat, m, kept, total));
                    assert(text_forest(g, start_id, input, chart@.forest, root));
                    earley_recognizer::lemma_forest_limits(chart.forest);
                    assert(text_laws::is_forest_of(g, start_id, input, chart@.forest, root));
                }
                c.completer_scan_steps = scans;
                c.forest_nodes = perf::count(c.forest_nodes, chart.forest.nodes.len() as u64);
                Ok((chart.forest, root))
            },
            None => {
                let e = ParseError::unexpected_eof(place.line, place.col, Vec::new());
                proof {
                    assert(text_charted(g, start_id, input, n as nat, chart@, kept));
                    assert(text_unfinished(g, start_id, input));
                    assert(text::texts(Seq::<String>::empty()) =~= Seq::empty());
                    assert(text_charted_with(
                        g,
                        start_id,
                        input,
                        n as nat,
                        chart@,
                        kept,
                        total,
                    ));
                }
                c.completer_scan_steps = scans;
                c.forest_nodes = perf::count(c.forest_nodes, chart.forest.nodes.len() as u64);
                Err(e)
            },
        }
    }

    /// Parses a text into a tree without a lexer: at each character the
    /// terminals that the parser expects are matched. With `complete_lex`
    /// shorter matches count too.
    pub fn parse_dynamic(
        &self,
        s: &str,
        start: Option<&str>,
        resolve: bool,
        complete_lex: bool,
        matcher: &DynamicMatcher,
    ) -> (r: Result<ParseTree, ParseError>)
        requires
            self.wf(),
        ensures
            dynamic_result(
                *self,
                Input { matcher: matcher@, text: s@, complete: complete_lex },
                lalr::opt_text(start),
                resolve,
                lalr::parsed(r),
            ),
    {
        let mut c = Counters::new();
        self.parse_dynamic_with(s, start, resolve, complete_lex, matcher, &mut c)
    }

    /// The same; the work is counted. The switch of the counters decides whether
    /// the parser takes its shortcuts, from now on.
    pub fn parse_dynamic_counted(
        &mut self,
        s: &str,
        start: Option<&str>,
        resolve: bool,
        complete_lex: bool,
        matcher: &DynamicMatcher,
        c: &mut Counters,
    ) -> (r: Result<ParseTree, ParseError>)
        requires
            old(self).wf(),
        ensures
            final(self).wf(),
            *final(self) == (EarleyParser { shortcuts: !old(c).leo_disabled, ..*old(self) }),
            dynamic_result(
                *final(self),
                Input { matcher: matcher@, text: s@, complete: complete_lex },
                lalr::opt_text(start),
                resolve,
                lalr::parsed(r),
            ),
            dynamic_counted(
                *final(self),
                Input { matcher: matcher@, text: s@, complete: complete_lex },
                lalr::opt_text(start),
                resolve,
                lalr::parsed(r),
                *old(c),
                *final(c),
            ),
    {
        self.shortcuts = !c.leo_disabled;
        self.parse_dynamic_with(s, start, resolve, complete_lex, matcher, c)
    }

    proof fn lemma_text_shown(
        &self,
        start: SymbolId,
        input: Input,
        resolve: bool,
        f: earley_forest::ForestModel,
        root: usize,
    )
        requires
            self.wf(),
            input.text.len() <= usize::MAX,
            text_laws::is_forest_of(self.context(), start, input, f, root),
            earley_shape::within_limits(f),
        ensures
            earley_tree::transformed(
                earley_tree::walk_of(self.grammar, f, resolve, true),
                root as int,
            ) matches Some(v) ==> (resolve || agreement::shows_clearly(self.grammar, start))
                ==> shows_text(
                *self,
                start,
                input,
                resolve,
                earley::rooted(v, symbols::name_of(self.grammar.symbols@, start)),
            ),
    {
        let w = earley_tree::walk_of(self.grammar, f, resolve, true);
        let name = symbols::name_of(self.grammar.symbols@, start);
        if let Some(v) = earley_tree::transformed(w, root as int) {
            if resolve || agreement::shows_clearly(self.grammar, start) {
                assert forall|u: tree::Node| #[trigger]
                    earley_shown::picks(resolve, earley::rooted(v, name), u) implies is_text_like(
                    *self,
                    start,
                    input,
                    u,
                ) by {
                    text_laws::text_tree_shows_derivations(
                        self.context(),
                        start,
                        input,
                        w,
                        root,
                        name,
                        u,
                    );
                }
            }
        }
    }

    #[verifier::rlimit(60)]
    fn parse_dynamic_with(
        &self,
        s: &str,
        start: Option<&str>,
        resolve: bool,
        complete_lex: bool,
        matcher: &DynamicMatcher,
        c: &mut Counters,
    ) -> (r: Result<ParseTree, ParseError>)
        requires
            self.wf(),
        ensures
            dynamic_result(
                *self,
                Input { matcher: matcher@, text: s@, complete: complete_lex },
                lalr::opt_text(start),
                resolve,
                lalr::parsed(r),
            ),
            dynamic_counted(
                *self,
                Input { matcher: matcher@, text: s@, complete: complete_lex },
                lalr::opt_text(start),
                resolve,
                lalr::parsed(r),
                *old(c),
                *final(c),
            ),
    {
        let ghost input = Input { matcher: matcher@, text: s@, complete: complete_lex };
        let start_id = match self.start_id(start) {
            Ok(s) => s,
            Err(e) => {
                return Err(e);
            },
        };
        match self.build_chart_dynamic(s, start_id, matcher, complete_lex, c) {
            Ok((forest, root)) => {
                proof {
                    let ghost g = self.context();
                    let w = earley_tree::walk_of(self.grammar, forest@, resolve, true);
                    text_laws::text_forest_is_of_a_sentence(g, start_id, input, forest@, root);
                    text_laws::text_forest_has_a_tree(g, start_id, input, w, root);
                    if resolve && agreement::spans_agree(self.grammar) {
                        text_laws::text_tree_is_of_a_derivation(g, start_id, input, w, root);
                    }
                    self.lemma_text_shown(start_id, input, resolve, forest@, root);
                    assert(text_forest(self.context(), start_id, input, forest@, root));
                    assert(text_forest_counted(
                        self.context(),
                        start_id,
                        input,
                        forest@,
                        *old(c),
                        *c,
                    ));
                }
                self.forest_to_tree(forest, root, start_id, resolve, true, c)
            },
            Err(e) => Err(e),
        }
    }
}

} // verus!
