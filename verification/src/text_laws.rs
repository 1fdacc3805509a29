//! What a parse of a text without a lexer gives: a tree exactly where the text is a
//! sentence, of a derivation of tokens that fill the text.

use vstd::prelude::*;
use crate::agreement;
use crate::analysis;
use crate::derivation;
use crate::earley;
use crate::earley_build;
use crate::earley_carry;
use crate::earley_chart;
use crate::earley_chart::EarleyParser;
use crate::earley_dynamic;
use crate::earley_explicit;
use crate::earley_fill;
use crate::earley_forest;
use crate::earley_forest::{Item, NodeKey};
use crate::earley_good;
use crate::earley_laws;
use crate::earley_load;
use crate::earley_paths;
use crate::earley_rank;
use crate::earley_recognizer;
use crate::earley_shape;
use crate::earley_shown;
use crate::earley_sound;
use crate::earley_text;
use crate::earley_tree;
use crate::earley_value;
use crate::error;
use crate::lalr;
use crate::reading;
use crate::symbols;
use crate::symbols::SymbolId;
use crate::tree;
use crate::tree_builder;
use crate::value_key;

verus! {

// ---------------------------------------------------------------------------
// The tokens of a text

/// Whether tokens fill a text from position `a` to position `b`, in order, with
/// only matches of ignored terminals before, between and after them.
pub open spec fn fill(l: reading::Reading, a: int, b: int, ts: Seq<tree::TokenModel>) -> bool
    decreases ts.len(),
{
    if ts.len() == 0 {
        reading::is_read(l, a, b, Seq::empty())
    } else {
        exists|c: int, d: int|
            fill(l, a, c, ts.drop_last()) && #[trigger] is_last(l, c, d, b, ts.last())
    }
}

/// Whether a token lies from `c` to `d`, and only what is ignored from there to
/// `b`.
pub open spec fn is_last(
    l: reading::Reading,
    c: int,
    d: int,
    b: int,
    t: tree::TokenModel,
) -> bool {
    (l.lies)(c, d, t) && c < d && reading::is_read(l, d, b, Seq::empty())
}

/// Whether tokens fill a whole text.
pub open spec fn fill_text(input: earley_dynamic::Input, ts: Seq<tree::TokenModel>) -> bool {
    fill(
        earley_text::of_text(input, SymbolId::spec_end()),
        0,
        input.text.len() as int,
        ts,
    )
}

proof fn lemma_fill_void(l: reading::Reading, a: int, b: int, c: int, ts: Seq<tree::TokenModel>)
    requires
        fill(l, a, b, ts),
        reading::is_read(l, b, c, Seq::empty()),
    ensures
        fill(l, a, c, ts),
{
    let none = Seq::<SymbolId>::empty();
    assert(none + none =~= none);
    if ts.len() == 0 {
        reading::lemma_read_on(l, a, b, c, none, none);
    } else {
        let (x, y) = choose|x: int, y: int|
            fill(l, a, x, ts.drop_last()) && #[trigger] is_last(l, x, y, b, ts.last());
        reading::lemma_read_on(l, y, b, c, none, none);
        assert(is_last(l, x, y, c, ts.last()));
    }
}

/// Tokens strung along the ground of a text fill it.
proof fn lemma_gaps_join(
    input: earley_dynamic::Input,
    start: SymbolId,
    gr: earley_shape::Ground,
)
    requires
        gr == earley_carry::ground(earley_text::of_text(input, start), gr.cols, gr.carried),
    ensures
        earley_value::gaps_join(gr),
{
    let l = earley_text::of_text(input, start);
    assert forall|a: int, b: int, c: int| #[trigger] (gr.gap)(a, b) && #[trigger] (gr.gap)(
        b,
        c,
    ) implies (gr.gap)(a, c) by {
        let none = Seq::<SymbolId>::empty();
        reading::lemma_read_on(l, a, b, c, none, none);
        assert(none + none =~= none);
    }
}

proof fn lemma_strung_fill(
    l: reading::Reading,
    gr: earley_shape::Ground,
    a: int,
    b: int,
    ts: Seq<tree::TokenModel>,
)
    requires
        gr == earley_carry::ground(l, gr.cols, gr.carried),
        earley_value::is_strung(gr, a, b, ts),
        0 <= a <= l.size,
    ensures
        fill(l, a, b, ts),
        0 <= b <= l.size,
    decreases ts.len(),
{
    if ts.len() == 0 {
        if a == b {
            reading::lemma_read_nothing(l, a);
        } else {
            assert((gr.gap)(a, b));
            reading::lemma_read_bounds(l, a, b, Seq::empty());
        }
    } else {
        let (c, d) = choose|c: int, d: int|
            earley_value::is_strung(gr, a, c, ts.drop_last()) && #[trigger]
                earley_value::ends_with(gr, c, d, b, ts.last());
        lemma_strung_fill(l, gr, a, c, ts.drop_last());
        let t = ts.last();
        assert((gr.token)(c, t, d));
        assert(earley_carry::is_behind(l, c, t, d));
        let e = choose|e: int| #[trigger]
            reading::is_read(l, c, e, Seq::empty()) && (l.lies)(e, d, t) && 0 <= c <= e < d
                <= l.size;
        lemma_fill_void(l, a, c, e, ts.drop_last());
        if d == b {
            reading::lemma_read_nothing(l, d);
        } else {
            assert((gr.gap)(d, b));
            reading::lemma_read_bounds(l, d, b, Seq::empty());
        }
        assert(is_last(l, e, d, b, t));
    }
}

// ---------------------------------------------------------------------------
// The forest of a text

/// Whether a forest is that of a text whose chart is complete and in shape.
pub open spec fn is_forest_of(
    g: earley_chart::Context,
    start: SymbolId,
    input: earley_dynamic::Input,
    f: earley_forest::ForestModel,
    root: usize,
) -> bool {
    exists|m: earley_chart::ChartModel, p: Seq<Option<Seq<earley_dynamic::DelayedModel>>>|
        #[trigger] earley_text::is_text_full(g, start, input, m, p, input.text.len() as int)
            && earley_carry::is_text_shape(g, start, input, m, p, input.text.len() as int)
            && earley_forest::find_node(
            m.forest.nodes,
            NodeKey::Sym(start),
            0,
            input.text.len() as usize,
            0,
        ) == Some(root as int) && earley_paths::loaded(g, m.arena, m.forest, root, f)
}

/// The forest of a text can be built from its root, its families are those of
/// their nodes, and its root spans the text; `r` holds what it stands on.
proof fn lemma_text_buildable(
    g: earley_chart::Context,
    start: SymbolId,
    input: earley_dynamic::Input,
    f: earley_forest::ForestModel,
    root: usize,
) -> (r: (earley_good::Known, earley_shape::Ground))
    requires
        earley_sound::context_true(g),
        earley_fill::flags_true(g),
        input.text.len() <= usize::MAX,
        is_forest_of(g, start, input, f, root),
        earley_shape::within_limits(f),
    ensures
        earley_build::is_buildable(f, r.0),
        r.0.visited.contains(root),
        earley_shape::families_fit(g, r.1, f),
        r.1 == earley_carry::ground(
            earley_text::of_text(input, start),
            r.1.cols,
            r.1.carried,
        ),
        root < f.nodes.len(),
        earley_forest::labelled(
            f.nodes[root as int],
            NodeKey::Sym(start),
            0,
            input.text.len() as usize,
        ),
{
    let l = earley_text::of_text(input, start);
    let n = input.text.len();
    let (m, p) = choose|
        m: earley_chart::ChartModel,
        p: Seq<Option<Seq<earley_dynamic::DelayedModel>>>,
    |
        #[trigger] earley_text::is_text_full(g, start, input, m, p, n as int)
            && earley_carry::is_text_shape(g, start, input, m, p, n as int)
            && earley_forest::find_node(
            m.forest.nodes,
            NodeKey::Sym(start),
            0,
            n as usize,
            0,
        ) == Some(root as int) && earley_paths::loaded(g, m.arena, m.forest, root, f);
    let from = earley_paths::Loading {
        forest: m.forest,
        stack: seq![root],
        visited: Seq::empty(),
    };
    let (c, s) = choose|c: nat, s: earley_paths::Loading|
        #[trigger] earley_paths::load_reaches(g, m.arena, from, s, c) && s.stack.len() == 0
            && s.forest == f;
    let hist = choose|hist: Seq<Seq<Item>>| #[trigger]
        earley_text::text_full(g, start, input, m, p, n as int, hist);
    let carried = choose|carried: Set<int>| #[trigger]
        earley_carry::text_shape(g, start, input, m, p, n as int, carried);
    let gr = earley_carry::ground(l, m.columns, carried);
    earley_load::lemma_run_limits(g, m.arena, from, c);
    assert(earley_shape::with_cols(gr, m.columns) == gr);
    earley_laws::lemma_chart_links(g, gr, m, start, n as int);
    earley_forest::lemma_find_node(m.forest.nodes, NodeKey::Sym(start), 0, n as usize, 0);
    earley_load::lemma_load_begun(g, m.arena, gr, start, m.forest, root);
    earley_load::lemma_load_run(g, m.arena, gr, start, from, root, c);
    let k = earley_load::known_of(s);
    assert(!s.stack.contains(root));
    assert forall|v: usize| #[trigger] k.visited.contains(v) implies f.nodes[v as int].paths.len()
        == 0 && earley_good::is_good(f, k, v as int) by {
        assert(s.visited.contains(v));
        assert(v < f.nodes.len());
    }
    (k, gr)
}

/// Where a forest of a text is built, it has a tree, whether one derivation is
/// chosen or all are shown.
pub proof fn text_forest_has_a_tree(
    g: earley_chart::Context,
    start: SymbolId,
    input: earley_dynamic::Input,
    w: earley_rank::Walk,
    root: usize,
)
    requires
        earley_sound::context_true(g),
        earley_fill::flags_true(g),
        input.text.len() <= usize::MAX,
        is_forest_of(g, start, input, w.forest, root),
        earley_shape::within_limits(w.forest),
    ensures
        earley_tree::transformed(w, root as int) is Some,
{
    let f = w.forest;
    let (k, gr) = lemma_text_buildable(g, start, input, f, root);
    if w.resolve {
        earley_build::lemma_root_built(w, k, root);
    } else {
        assert forall|i: int, j: int|
            0 <= i < f.nodes.len() && 0 <= j < f.nodes[i].families.len() implies
            earley_explicit::parts_fit(f, #[trigger] f.nodes[i].families[j]) by {
            assert(earley_shape::is_family(g, gr, f, f.nodes[i], f.nodes[i].families[j]));
        }
        earley_explicit::lemma_root_shown(w, k, root);
    }
}

/// Where a forest of a text is built, the text is a sentence.
pub proof fn text_forest_is_of_a_sentence(
    g: earley_chart::Context,
    start: SymbolId,
    input: earley_dynamic::Input,
    f: earley_forest::ForestModel,
    root: usize,
)
    requires
        earley_sound::context_true(g),
        start.ix() >= g.nt,
        input.text.len() <= usize::MAX,
        is_forest_of(g, start, input, f, root),
    ensures
        earley_text::is_text_sentence(g, start, input),
{
    let n = input.text.len() as int;
    let (m, p) = choose|
        m: earley_chart::ChartModel,
        p: Seq<Option<Seq<earley_dynamic::DelayedModel>>>,
    |
        #[trigger] earley_text::is_text_full(g, start, input, m, p, n)
            && earley_carry::is_text_shape(g, start, input, m, p, n) && earley_forest::find_node(
            m.forest.nodes,
            NodeKey::Sym(start),
            0,
            n as usize,
            0,
        ) == Some(root as int) && earley_paths::loaded(g, m.arena, m.forest, root, f);
    earley_text::lemma_text_root(g, start, input, m, p);
}

/// Whether `v` is the value of a derivation of tokens that fill a text.
pub open spec fn is_text_value(
    rules: Seq<symbols::RuleModel>,
    nt: nat,
    pp: bool,
    s: SymbolId,
    input: earley_dynamic::Input,
    v: tree_builder::SlotModel,
) -> bool {
    exists|ts: Seq<tree::TokenModel>| #[trigger]
        fill_text(input, ts) && derivation::yields(rules, nt, pp, s, ts, v)
}

/// What fills a text fills it whatever it is to be read as.
proof fn lemma_fill_aim(
    input: earley_dynamic::Input,
    s: SymbolId,
    a: int,
    b: int,
    ts: Seq<tree::TokenModel>,
)
    requires
        fill(earley_text::of_text(input, s), a, b, ts),
    ensures
        fill(earley_text::of_text(input, SymbolId::spec_end()), a, b, ts),
    decreases ts.len(),
{
    let l = earley_text::of_text(input, s);
    let k = earley_text::of_text(input, SymbolId::spec_end());
    if ts.len() == 0 {
        lemma_read_aim(input, s, a, b);
    } else {
        let (c, d) = choose|c: int, d: int|
            fill(l, a, c, ts.drop_last()) && #[trigger] is_last(l, c, d, b, ts.last());
        lemma_fill_aim(input, s, a, c, ts.drop_last());
        lemma_read_aim(input, s, d, b);
        assert((k.lies)(c, d, ts.last()) == (l.lies)(c, d, ts.last()));
        assert(is_last(k, c, d, b, ts.last()));
    }
}

proof fn lemma_read_aim(input: earley_dynamic::Input, s: SymbolId, a: int, b: int)
    requires
        reading::is_read(earley_text::of_text(input, s), a, b, Seq::empty()),
    ensures
        reading::is_read(earley_text::of_text(input, SymbolId::spec_end()), a, b, Seq::empty()),
{
    let none = Seq::<SymbolId>::empty();
    let d = choose|d: nat| #[trigger]
        reading::leads(earley_text::of_text(input, s), a, b, none, d);
    lemma_leads_aim(input, s, a, b, d);
}

proof fn lemma_leads_aim(input: earley_dynamic::Input, s: SymbolId, a: int, b: int, d: nat)
    requires
        reading::leads(earley_text::of_text(input, s), a, b, Seq::empty(), d),
    ensures
        reading::leads(
            earley_text::of_text(input, SymbolId::spec_end()),
            a,
            b,
            Seq::empty(),
            d,
        ),
    decreases d,
{
    let none = Seq::<SymbolId>::empty();
    let l = earley_text::of_text(input, s);
    let k = earley_text::of_text(input, SymbolId::spec_end());
    if !(a == b && 0 <= a <= l.size) {
        let c = choose|c: int| #[trigger]
            reading::gap_at(l, a, c) && reading::leads(l, c, b, none, (d - 1) as nat);
        lemma_leads_aim(input, s, c, b, (d - 1) as nat);
        assert(earley_text::is_ignored(input, a, c));
        assert(reading::gap_at(k, a, c));
    }
}

/// Where ambiguity is resolved, the tree of a text is the value of a derivation,
/// by the start symbol, of tokens that fill the text.
pub proof fn text_tree_is_of_a_derivation(
    g: earley_chart::Context,
    start: SymbolId,
    input: earley_dynamic::Input,
    w: earley_rank::Walk,
    root: usize,
)
    requires
        earley_sound::context_true(g),
        earley_fill::flags_true(g),
        input.text.len() <= usize::MAX,
        is_forest_of(g, start, input, w.forest, root),
        earley_shape::within_limits(w.forest),
        w.resolve,
        w.rules == g.rules,
        symbols::is_uniform(g.rules),
        w.pp ==> earley_value::is_opaque(g.rules),
    ensures
        earley_tree::transformed(w, root as int) matches Some(v) && is_text_value(
            g.rules,
            g.nt,
            w.pp,
            start,
            input,
            v,
        ),
{
    let l = earley_text::of_text(input, start);
    let (k, gr) = lemma_text_buildable(g, start, input, w.forest, root);
    text_forest_has_a_tree(g, start, input, w, root);
    lemma_gaps_join(input, start, gr);
    earley_value::lemma_root_valued(g, gr, w, root as int, start);
    let v = earley_tree::transformed(w, root as int)->0;
    let n = input.text.len() as usize;
    let ts = choose|ts: Seq<tree::TokenModel>| #[trigger]
        earley_value::are_between(gr, w, 0, n, ts) && derivation::yields(
            g.rules,
            g.nt,
            w.pp,
            start,
            ts,
            v,
        );
    lemma_strung_fill(l, gr, 0, n as int, ts);
    lemma_fill_aim(input, start, 0, n as int, ts);
    assert(fill_text(input, ts));
}

/// Whether a tree is, up to spans, that of a derivation, by a start symbol, of
/// tokens that fill a text.
pub open spec fn is_text_derived(
    rules: Seq<symbols::RuleModel>,
    nt: nat,
    pp: bool,
    s: SymbolId,
    name: Seq<char>,
    input: earley_dynamic::Input,
    u: tree::Node,
) -> bool {
    exists|v: tree_builder::SlotModel| #[trigger]
        is_text_value(rules, nt, pp, s, input, v) && value_key::same_node(
            u,
            earley::rooted(v, name),
        )
}

/// Whatever is left of the tree of a text where one alternative is picked at every
/// ambiguity node is, up to spans, the tree of a derivation of tokens that fill the
/// text. Where ambiguity is resolved, the tree itself is.
pub proof fn text_tree_shows_derivations(
    g: earley_chart::Context,
    start: SymbolId,
    input: earley_dynamic::Input,
    w: earley_rank::Walk,
    root: usize,
    name: Seq<char>,
    u: tree::Node,
)
    requires
        earley_sound::context_true(g),
        earley_fill::flags_true(g),
        input.text.len() <= usize::MAX,
        is_forest_of(g, start, input, w.forest, root),
        earley_shape::within_limits(w.forest),
        w.rules == g.rules,
        symbols::is_uniform(g.rules),
        w.resolve || earley_shown::names_differ(g.rules) && earley_shown::keeps_symbols(
            g.rules,
            g.nt,
        ) && derivation::is_solid(g.rules, start),
        earley_tree::transformed(w, root as int) matches Some(v) && earley_shown::picks(
            w.resolve,
            earley::rooted(v, name),
            u,
        ),
    ensures
        is_text_derived(g.rules, g.nt, w.pp, start, name, input, u),
{
    let l = earley_text::of_text(input, start);
    let (k, gr) = lemma_text_buildable(g, start, input, w.forest, root);
    lemma_gaps_join(input, start, gr);
    let v = earley_shown::lemma_root_picked(g, gr, w, root as int, start, name, u);
    let n = input.text.len() as usize;
    let ts = choose|ts: Seq<tree::TokenModel>| #[trigger]
        earley_value::are_between(gr, w, 0, n, ts) && derivation::yields(
            g.rules,
            g.nt,
            w.pp,
            start,
            ts,
            v,
        );
    lemma_strung_fill(l, gr, 0, n as int, ts);
    lemma_fill_aim(input, start, 0, n as int, ts);
    assert(fill_text(input, ts));
    assert(is_text_value(g.rules, g.nt, w.pp, start, input, v));
}

// ---------------------------------------------------------------------------
// The result is fixed

/// The chart of the first characters of a text, and what is kept, are fixed.
pub proof fn text_chart_is_fixed(
    g: earley_chart::Context,
    start: SymbolId,
    input: earley_dynamic::Input,
    i: nat,
    m1: earley_chart::ChartModel,
    p1: Seq<Option<Seq<earley_dynamic::DelayedModel>>>,
    m2: earley_chart::ChartModel,
    p2: Seq<Option<Seq<earley_dynamic::DelayedModel>>>,
)
    requires
        earley_dynamic::text_charted(g, start, input, i, m1, p1),
        earley_dynamic::text_charted(g, start, input, i, m2, p2),
    ensures
        m1 == m2,
        p1 == p2,
    decreases i,
{
    if i == 0 {
        let m = earley_recognizer::started(g, start);
        earley::lemma_closed_once(g, m, 0, start, m1, m2);
    } else {
        let j = (i - 1) as nat;
        let (a1, b1) = choose|
            a: earley_chart::ChartModel,
            b: Seq<Option<Seq<earley_dynamic::DelayedModel>>>,
        |
            earley_dynamic::text_charted(g, start, input, j, a, b)
                && #[trigger] earley_dynamic::text_follows(
                g,
                start,
                input,
                i as usize,
                a,
                b,
                m1,
                p1,
            );
        let (a2, b2) = choose|
            a: earley_chart::ChartModel,
            b: Seq<Option<Seq<earley_dynamic::DelayedModel>>>,
        |
            earley_dynamic::text_charted(g, start, input, j, a, b)
                && #[trigger] earley_dynamic::text_follows(
                g,
                start,
                input,
                i as usize,
                a,
                b,
                m2,
                p2,
            );
        text_chart_is_fixed(g, start, input, j, a1, b1, a2, b2);
        let n = earley_dynamic::character_step(g, start, input, a1, b1).0->0;
        earley::lemma_closed_once(g, n, i as usize, start, m1, m2);
    }
}

/// The forest of a text is fixed.
pub proof fn text_forest_is_fixed(
    g: earley_chart::Context,
    start: SymbolId,
    input: earley_dynamic::Input,
    f1: earley_forest::ForestModel,
    root1: usize,
    f2: earley_forest::ForestModel,
    root2: usize,
)
    requires
        earley_dynamic::text_forest(g, start, input, f1, root1),
        earley_dynamic::text_forest(g, start, input, f2, root2),
    ensures
        f1 == f2,
        root1 == root2,
{
    let key = NodeKey::Sym(start);
    let n = input.text.len();
    let (m1, p1) = choose|
        m: earley_chart::ChartModel,
        p: Seq<Option<Seq<earley_dynamic::DelayedModel>>>,
    |
        #[trigger] earley_dynamic::text_charted(g, start, input, n, m, p)
            && earley_forest::find_node(m.forest.nodes, key, 0, n as usize, 0) == Some(
            root1 as int,
        ) && earley_paths::loaded(g, m.arena, m.forest, root1, f1);
    let (m2, p2) = choose|
        m: earley_chart::ChartModel,
        p: Seq<Option<Seq<earley_dynamic::DelayedModel>>>,
    |
        #[trigger] earley_dynamic::text_charted(g, start, input, n, m, p)
            && earley_forest::find_node(m.forest.nodes, key, 0, n as usize, 0) == Some(
            root2 as int,
        ) && earley_paths::loaded(g, m.arena, m.forest, root2, f2);
    text_chart_is_fixed(g, start, input, n, m1, p1, m2, p2);
    earley::lemma_loaded_once(g, m1, root1, f1, f2);
}

/// A chart of the first `i` characters came of one of the first `j`, from which
/// something led on.
proof fn lemma_text_before(
    g: earley_chart::Context,
    start: SymbolId,
    input: earley_dynamic::Input,
    j: nat,
    i: nat,
    m: earley_chart::ChartModel,
    p: Seq<Option<Seq<earley_dynamic::DelayedModel>>>,
) -> (r: (earley_chart::ChartModel, Seq<Option<Seq<earley_dynamic::DelayedModel>>>))
    requires
        earley_dynamic::text_charted(g, start, input, i, m, p),
        j < i,
    ensures
        earley_dynamic::text_charted(g, start, input, j, r.0, r.1),
        earley_dynamic::character_step(g, start, input, r.0, r.1).0 is Some,
    decreases i,
{
    let (a, b) = choose|
        a: earley_chart::ChartModel,
        b: Seq<Option<Seq<earley_dynamic::DelayedModel>>>,
    |
        earley_dynamic::text_charted(g, start, input, (i - 1) as nat, a, b)
            && #[trigger] earley_dynamic::text_follows(g, start, input, i as usize, a, b, m, p);
    if j + 1 == i {
        (a, b)
    } else {
        lemma_text_before(g, start, input, j, (i - 1) as nat, a, b)
    }
}

/// There is one place at which the parser of a text can be stuck.
proof fn lemma_text_stuck_once(
    g: earley_chart::Context,
    start: SymbolId,
    input: earley_dynamic::Input,
    j: nat,
    i: nat,
    m: earley_chart::ChartModel,
    p: Seq<Option<Seq<earley_dynamic::DelayedModel>>>,
)
    requires
        earley_dynamic::text_stuck(g, start, input, j),
        earley_dynamic::text_charted(g, start, input, i, m, p),
    ensures
        i <= j,
{
    if j < i {
        let (a, b) = lemma_text_before(g, start, input, j, i, m, p);
        let (c, d) = choose|
            c: earley_chart::ChartModel,
            d: Seq<Option<Seq<earley_dynamic::DelayedModel>>>,
        |
            #[trigger] earley_dynamic::text_charted(g, start, input, j, c, d)
                && earley_dynamic::character_step(g, start, input, c, d).0 is None;
        text_chart_is_fixed(g, start, input, j, a, b, c, d);
    }
}

/// The report of a text that is no sentence is fixed.
pub proof fn text_error_is_fixed(
    g: earley_chart::Context,
    start: SymbolId,
    input: earley_dynamic::Input,
    e1: error::ErrorModel,
    e2: error::ErrorModel,
)
    requires
        earley_dynamic::text_error(g, start, input, e1),
        earley_dynamic::text_error(g, start, input, e2),
    ensures
        e1 == e2,
{
    let n = input.text.len();
    if earley_dynamic::text_unfinished(g, start, input) {
        let (m, p) = choose|
            m: earley_chart::ChartModel,
            p: Seq<Option<Seq<earley_dynamic::DelayedModel>>>,
        |
            #[trigger] earley_dynamic::text_charted(g, start, input, n, m, p)
                && earley_forest::find_node(
                m.forest.nodes,
                NodeKey::Sym(start),
                0,
                n as usize,
                0,
            ) is None;
        assert forall|i: nat|
            i < n implies !#[trigger] earley_dynamic::text_stuck(g, start, input, i) by {
            if earley_dynamic::text_stuck(g, start, input, i) {
                lemma_text_stuck_once(g, start, input, i, n, m, p);
            }
        }
    } else {
        let i1 = choose|i: nat|
            i < n && #[trigger] earley_dynamic::text_stuck(g, start, input, i) && e1
                == earley_dynamic::stuck_error(input.text, i as int);
        let i2 = choose|i: nat|
            i < n && #[trigger] earley_dynamic::text_stuck(g, start, input, i) && e2
                == earley_dynamic::stuck_error(input.text, i as int);
        let (m1, p1) = choose|
            m: earley_chart::ChartModel,
            p: Seq<Option<Seq<earley_dynamic::DelayedModel>>>,
        |
            #[trigger] earley_dynamic::text_charted(g, start, input, i1, m, p)
                && earley_dynamic::character_step(g, start, input, m, p).0 is None;
        let (m2, p2) = choose|
            m: earley_chart::ChartModel,
            p: Seq<Option<Seq<earley_dynamic::DelayedModel>>>,
        |
            #[trigger] earley_dynamic::text_charted(g, start, input, i2, m, p)
                && earley_dynamic::character_step(g, start, input, m, p).0 is None;
        lemma_text_stuck_once(g, start, input, i1, i2, m2, p2);
        lemma_text_stuck_once(g, start, input, i2, i1, m1, p1);
    }
}

/// The result of parsing a text is fixed by the grammar, the start symbol, how its
/// terminals match, the text, and the treatment of ambiguity.
pub proof fn dynamic_parse_is_fixed(
    p: EarleyParser,
    input: earley_dynamic::Input,
    start: Option<Seq<char>>,
    resolve: bool,
    r1: Result<tree::Node, error::ErrorModel>,
    r2: Result<tree::Node, error::ErrorModel>,
)
    requires
        earley_dynamic::dynamic_result(p, input, start, resolve, r1),
        earley_dynamic::dynamic_result(p, input, start, resolve, r2),
    ensures
        r1 == r2,
{
    if let Some(s) = lalr::resolved_start(p.grammar.start@, p.grammar.symbols@, start) {
        let g = p.context();
        match r1 {
            Ok(_) => {
                let (f1, root1) = choose|f: earley_forest::ForestModel, root: usize|
                    #[trigger] earley_dynamic::text_forest(g, s, input, f, root) && r1
                        == earley::tree_of(p.grammar, f, root, s, resolve, true);
                let (f2, root2) = choose|f: earley_forest::ForestModel, root: usize|
                    #[trigger] earley_dynamic::text_forest(g, s, input, f, root) && r2
                        == earley::tree_of(p.grammar, f, root, s, resolve, true);
                text_forest_is_fixed(g, s, input, f1, root1, f2, root2);
            },
            Err(e) => {
                text_error_is_fixed(g, s, input, e, r2->Err_0);
            },
        }
    }
}

// ---------------------------------------------------------------------------
// Shorter matches

/// The same text, where shorter matches count too.
pub open spec fn completed(input: earley_dynamic::Input) -> earley_dynamic::Input {
    earley_dynamic::Input { complete: true, ..input }
}

proof fn lemma_leads_completed(
    input: earley_dynamic::Input,
    s: SymbolId,
    a: int,
    b: int,
    w: Seq<SymbolId>,
    d: nat,
)
    requires
        reading::leads(earley_text::of_text(input, s), a, b, w, d),
    ensures
        reading::leads(earley_text::of_text(completed(input), s), a, b, w, d),
    decreases d,
{
    let l = earley_text::of_text(input, s);
    let k = earley_text::of_text(completed(input), s);
    if a == b && w.len() == 0 && 0 <= a <= l.size {
    } else if exists|c: int| #[trigger]
        reading::gap_at(l, a, c) && reading::leads(l, c, b, w, (d - 1) as nat) {
        let c = choose|c: int| #[trigger]
            reading::gap_at(l, a, c) && reading::leads(l, c, b, w, (d - 1) as nat);
        lemma_leads_completed(input, s, c, b, w, (d - 1) as nat);
        let j = choose|j: int|
            0 <= j < input.matcher.ignore.len() && earley_text::ends_at(
                earley_text::matched(input, #[trigger] input.matcher.ignore[j], a),
                a,
                c,
            );
        assert(earley_text::matched(completed(input), completed(input).matcher.ignore[j], a)
            == earley_text::matched(input, input.matcher.ignore[j], a));
        assert(earley_text::is_ignored(completed(input), a, c));
        assert(reading::gap_at(k, a, c));
    } else {
        let c = choose|c: int| #[trigger]
            reading::tok_at(l, a, c, w[0]) && reading::leads(l, c, b, w.skip(1), (d - 1) as nat);
        lemma_leads_completed(input, s, c, b, w.skip(1), (d - 1) as nat);
        assert(earley_text::matched(completed(input), w[0], a) == earley_text::matched(
            input,
            w[0],
            a,
        ));
        assert(earley_text::is_token(input, w[0], a, c));
        if !earley_text::ends_at(earley_text::matched(input, w[0], a), a, c) {
            let v = earley_text::matched(input, w[0], a)->0;
            let q = choose|q: int|
                1 <= q < v.len() && #[trigger] earley_text::ends_within(input, w[0], a, q, c);
            assert(earley_text::ends_within(completed(input), w[0], a, q, c));
        }
        assert(earley_text::is_token(completed(input), w[0], a, c));
        assert(reading::tok_at(k, a, c, w[0]));
    }
}

/// Where shorter matches count too, the parser accepts every text that it accepts
/// without them.
pub proof fn shorter_matches_add_texts(
    p: EarleyParser,
    input: earley_dynamic::Input,
    start: Option<Seq<char>>,
    resolve: bool,
    r: Result<tree::Node, error::ErrorModel>,
    q: Result<tree::Node, error::ErrorModel>,
)
    requires
        earley_dynamic::dynamic_result(p, input, start, resolve, r),
        earley_dynamic::dynamic_result(p, completed(input), start, resolve, q),
    ensures
        r is Ok ==> q is Ok,
{
    if let Some(s) = lalr::resolved_start(p.grammar.start@, p.grammar.symbols@, start) {
        if r is Ok {
            let g = p.context();
            let n = input.text.len() as int;
            let w = choose|w: Seq<SymbolId>|
                #[trigger] reading::is_read(earley_text::of_text(input, s), 0, n, w)
                    && analysis::derives(g.rules, g.nt, s, w);
            let d = choose|d: nat| #[trigger]
                reading::leads(earley_text::of_text(input, s), 0, n, w, d);
            lemma_leads_completed(input, s, 0, n, w, d);
            assert(reading::is_read(earley_text::of_text(completed(input), s), 0, n, w));
        }
    }
}

/// The tree of a text is the value of a derivation, by the start symbol, of tokens
/// that fill the text, where ambiguity is resolved.
pub proof fn dynamic_tree_is_of_a_derivation(
    p: EarleyParser,
    input: earley_dynamic::Input,
    start: Option<Seq<char>>,
    t: tree::Node,
) -> (v: tree_builder::SlotModel)
    requires
        agreement::spans_agree(p.grammar),
        earley_dynamic::dynamic_result(
            p,
            input,
            start,
            true,
            Ok::<tree::Node, error::ErrorModel>(t),
        ),
    ensures
        ({
            let s = lalr::resolved_start(p.grammar.start@, p.grammar.symbols@, start)->0;
            &&& is_text_value(
                p.grammar.models(),
                p.grammar.terminal_count as nat,
                p.grammar.propagate_positions,
                s,
                input,
                v,
            )
            &&& t == earley::rooted(v, symbols::name_of(p.grammar.symbols@, s))
        }),
{
    let s = lalr::resolved_start(p.grammar.start@, p.grammar.symbols@, start)->0;
    assert(earley_dynamic::is_text_tree(p, s, input, t));
    choose|v: tree_builder::SlotModel| #[trigger]
        is_text_value(
            p.grammar.models(),
            p.grammar.terminal_count as nat,
            p.grammar.propagate_positions,
            s,
            input,
            v,
        ) && t == earley::rooted(v, symbols::name_of(p.grammar.symbols@, s))
}

/// Where all derivations of a text are shown, each way to pick one alternative at
/// every ambiguity node leaves, up to spans, the tree of a derivation of tokens that
/// fill the text. Where ambiguity is resolved, the tree is that of such a
/// derivation, whatever the spans cover.
pub proof fn dynamic_tree_shows_derivations(
    p: EarleyParser,
    input: earley_dynamic::Input,
    start: Option<Seq<char>>,
    resolve: bool,
    t: tree::Node,
)
    requires
        earley_dynamic::dynamic_result(
            p,
            input,
            start,
            resolve,
            Ok::<tree::Node, error::ErrorModel>(t),
        ),
    ensures
        ({
            let s = lalr::resolved_start(p.grammar.start@, p.grammar.symbols@, start)->0;
            if resolve {
                earley_dynamic::is_text_like(p, s, input, t)
            } else {
                agreement::shows_clearly(p.grammar, s) ==> forall|u: tree::Node| #[trigger]
                    earley_shown::picks(false, t, u) ==> earley_dynamic::is_text_like(
                        p,
                        s,
                        input,
                        u,
                    )
            }
        }),
{
    let s = lalr::resolved_start(p.grammar.start@, p.grammar.symbols@, start)->0;
    assert(earley_dynamic::shows_text(p, s, input, resolve, t) || !resolve
        && !agreement::shows_clearly(p.grammar, s));
    if resolve {
        earley_shown::lemma_picks_self(t);
    }
}

/// Whether an Earley parser takes its shortcuts or not does not decide whether a text
/// has a tree.
pub proof fn shortcuts_leave_the_texts_alone(
    p: EarleyParser,
    input: earley_dynamic::Input,
    start: Option<Seq<char>>,
    resolve: bool,
    r: Result<tree::Node, error::ErrorModel>,
    q: Result<tree::Node, error::ErrorModel>,
)
    requires
        earley_dynamic::dynamic_result(p, input, start, resolve, r),
        earley_dynamic::dynamic_result(
            (EarleyParser { shortcuts: !p.shortcuts, ..p }),
            input,
            start,
            resolve,
            q,
        ),
    ensures
        r is Ok <==> q is Ok,
{
}

} // verus!
