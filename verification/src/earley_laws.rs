//! What the Earley parser accepts: the sentences of the grammar, and no other
//! tokens.

use vstd::prelude::*;
use crate::analysis;
use crate::cyk;
use crate::earley_build;
use crate::earley_chain;
use crate::earley_chart;
use crate::earley_complete;
use crate::earley_exact;
use crate::earley_explicit;
use crate::earley_fill;
use crate::earley_forest;
use crate::earley_forest::{ForestRef, Item, NodeKey};
use crate::earley_good;
use crate::earley_leo;
use crate::earley_load;
use crate::earley_paths;
use crate::earley_places;
use crate::earley_reach;
use crate::earley_rank;
use crate::earley_recognizer;
use crate::earley_shape;
use crate::earley_sound;
use crate::earley_tree;
use crate::error;
use crate::reading;
use crate::symbols;
use crate::symbols::SymbolId;
use crate::tree;

verus! {

// ---------------------------------------------------------------------------
// A forest to fill in

/// The links of a closed chart are in order with respect to its forest.
pub proof fn lemma_chart_links(
    g: earley_chart::Context,
    gr: earley_shape::Ground,
    m: earley_chart::ChartModel,
    start: SymbolId,
    i: int,
)
    requires
        earley_sound::context_true(g),
        earley_fill::flags_true(g),
        earley_places::chart_shape(g, gr, m, i),
        earley_complete::links_true(g, m, start, i),
    ensures
        earley_chain::are_links(
            g,
            earley_shape::with_cols(gr, m.columns),
            start,
            m.forest,
            m.arena,
        ),
{
    assert forall|t: int| 0 <= t < m.arena.len() implies #[trigger] earley_chain::is_link(
        g,
        earley_shape::with_cols(gr, m.columns),
        start,
        m.forest,
        m.arena,
        t,
    ) by {
        let x = m.arena[t];
        earley_places::lemma_red_placed(g, gr, m, start, i, t);
        assert(earley_complete::link_true(g, m, start, i, t));
        let column = m.columns[x.key_start as int];
        earley_chart::lemma_waiting(g, column, x.recognized);
        assert(earley_chart::waiting(g, column, x.recognized)[0] == x.red);
        assert(column.contains(x.red));
        let q = choose|q: int| 0 <= q < column.len() && column[q] == x.red;
        assert(earley_places::none_waits(g, m.columns[x.key_start as int]));
        assert(!earley_chart::wants_terminal(g, column[q]));
        let e = g.rules[x.red.rule as int].expansion;
        assert forall|j: int| x.red.dot < j < e.len() implies g.nullable[(
        #[trigger] e[j]).ix() as int] && !analysis::grows(g.rules, g.nt, e[j]) by {
            assert(g.rules[x.red.rule as int].expansion[j].ix() < g.n);
            assert(g.eps_only[e[j].ix() as int]);
        }
    }
}

/// A closed chart has no more links than can be numbered.
pub proof fn lemma_chart_arena(
    g: earley_chart::Context,
    start: SymbolId,
    tokens: Seq<tree::TokenModel>,
    i: nat,
    m: earley_chart::ChartModel,
)
    requires
        earley_recognizer::charted(g, start, tokens, i, m),
    ensures
        m.arena.len() <= usize::MAX,
{
    if i > 0 {
        let p = choose|p: earley_chart::ChartModel|
            earley_recognizer::charted(g, start, tokens, (i - 1) as nat, p)
                && #[trigger] earley_recognizer::follows(g, start, tokens, i as int, p, m);
        assert(earley_recognizer::follows(g, start, tokens, i as int, p, m));
    }
}

/// The forest of a sentence can be built from its root, its families are those of
/// their nodes, and its root spans the tokens; `r` holds what it stands on.
pub proof fn lemma_forest_buildable(
    g: earley_chart::Context,
    start: SymbolId,
    tokens: Seq<tree::TokenModel>,
    f: earley_forest::ForestModel,
    root: usize,
) -> (r: (earley_good::Known, earley_shape::Ground))
    requires
        earley_sound::context_true(g),
        earley_fill::flags_true(g),
        tokens.len() <= usize::MAX,
        earley_recognizer::forest_of(g, start, tokens, f, root),
    ensures
        earley_build::is_buildable(f, r.0),
        r.0.visited.contains(root),
        earley_shape::families_fit(g, r.1, f),
        earley_shape::labels_ok(g, r.1, f),
        !r.1.loose,
        f.tokens == tokens,
        root < f.nodes.len(),
        earley_forest::labelled(
            f.nodes[root as int],
            NodeKey::Sym(start),
            0,
            tokens.len() as usize,
        ),
{
    let types = cyk::types_of(tokens);
    let n = tokens.len();
    let m = choose|m: earley_chart::ChartModel|
        #[trigger] earley_recognizer::charted(g, start, tokens, tokens.len(), m)
            && earley_forest::find_node(
            m.forest.nodes,
            NodeKey::Sym(start),
            0,
            tokens.len() as usize,
            0,
        ) == Some(root as int) && earley_paths::loaded(g, m.arena, m.forest, root, f);
    let from = earley_paths::Loading {
        forest: m.forest,
        stack: seq![root],
        visited: Seq::empty(),
    };
    let (c, s) = choose|c: nat, s: earley_paths::Loading|
        #[trigger] earley_paths::load_reaches(g, m.arena, from, s, c) && s.stack.len() == 0
            && s.forest == f;
    earley_load::lemma_run_limits(g, m.arena, from, c);
    earley_fill::lemma_flags_closed(g);
    let hist = earley_exact::lemma_charted_full(g, start, tokens, types, n, m);
    earley_places::lemma_charted_shape(g, start, tokens, types, n, m);
    assert(tokens.take(n as int) =~= tokens);
    lemma_chart_arena(g, start, tokens, n, m);
    let gr = earley_shape::firm(m.columns, start);
    lemma_chart_links(g, gr, m, start, n as int);
    earley_forest::lemma_find_node(m.forest.nodes, NodeKey::Sym(start), 0, n as usize, 0);
    earley_load::lemma_load_begun(g, m.arena, gr, start, m.forest, root);
    earley_load::lemma_load_run(g, m.arena, gr, start, from, root, c);
    let k = earley_load::known_of(s);
    assert(!s.stack.contains(root));
    assert forall|v: usize| #[trigger] k.visited.contains(v) implies f.nodes[v as int].paths.len()
        == 0 && earley_good::is_good(f, k, v as int) by {
        assert(s.visited.contains(v));
        assert(v < f.nodes.len());
    }
    (k, gr)
}

// ---------------------------------------------------------------------------
// Laws

/// Where the parser builds a forest, the start symbol derives the tokens.
pub proof fn forest_is_of_a_sentence(
    g: earley_chart::Context,
    start: SymbolId,
    tokens: Seq<tree::TokenModel>,
    f: earley_forest::ForestModel,
    root: usize,
)
    requires
        earley_sound::context_true(g),
        tokens.len() <= usize::MAX,
        earley_recognizer::forest_of(g, start, tokens, f, root),
    ensures
        analysis::derives(g.rules, g.nt, start, cyk::types_of(tokens)),
{
    let types = cyk::types_of(tokens);
    let m = choose|m: earley_chart::ChartModel|
        #[trigger] earley_recognizer::charted(g, start, tokens, tokens.len(), m)
            && earley_forest::find_node(
            m.forest.nodes,
            NodeKey::Sym(start),
            0,
            tokens.len() as usize,
            0,
        ) == Some(root as int) && earley_paths::loaded(g, m.arena, m.forest, root, f);
    let hist = earley_exact::lemma_charted_full(g, start, tokens, types, tokens.len(), m);
    earley_forest::lemma_find_node(
        m.forest.nodes,
        NodeKey::Sym(start),
        0,
        tokens.len() as usize,
        0,
    );
    let l = reading::of_types(types, start);
    assert(earley_sound::node_derived(g, l, m.forest.nodes[root as int]));
    let w = choose|w: Seq<SymbolId>|
        #[trigger] reading::is_read(l, 0, tokens.len() as int, w) && reading::is_solid(
            0,
            tokens.len() as int,
            w,
        ) && analysis::derives(g.rules, g.nt, start, w);
    reading::lemma_types_read(types, start, 0, tokens.len() as int, w);
    assert(types.subrange(0, tokens.len() as int) =~= types);
}

/// No sentence of the grammar begins with tokens at the last of which the
/// parser is stuck.
pub proof fn stuck_is_no_beginning(
    g: earley_chart::Context,
    start: SymbolId,
    tokens: Seq<tree::TokenModel>,
    i: nat,
    sentence: Seq<SymbolId>,
)
    requires
        earley_sound::context_true(g),
        start.ix() >= g.nt,
        i < tokens.len(),
        earley_recognizer::stuck_at(g, start, tokens, i),
        i < sentence.len() <= usize::MAX,
        sentence.take(i as int + 1) == cyk::types_of(tokens).take(i as int + 1),
    ensures
        !analysis::derives(g.rules, g.nt, start, sentence),
{
    let types = cyk::types_of(tokens);
    assert forall|k: int| 0 <= k <= i implies tokens[k].type_id == #[trigger] sentence[k] by {
        assert(sentence.take(i as int + 1)[k] == types.take(i as int + 1)[k]);
    }
    let m = choose|m: earley_chart::ChartModel|
        #[trigger] earley_recognizer::charted(g, start, tokens, i, m)
            && earley_recognizer::scan_step(g, m, tokens[i as int]) is None;
    let hist = earley_exact::lemma_charted_full(g, start, tokens, sentence, i, m);
    if analysis::derives(g.rules, g.nt, start, sentence) {
        let l = reading::of_types(sentence, start);
        reading::lemma_types_tight(sentence, start, 0, sentence.len() as int);
        assert(sentence.subrange(0, sentence.len() as int) =~= sentence);
        reading::lemma_tight_bounds(l, 0, sentence.len() as int, sentence);
        earley_reach::lemma_sentence_reached(g, start, l, m, hist, i as int, sentence);
        let (c0, d0, x) = choose|c: int, d: int, x: Item|
            #[trigger] earley_reach::leap(g, start, l, hist, i as int, c, d, x);
        let t = tokens[i as int];
        assert(t.type_id == sentence[i as int]);
        let h = hist[i as int];
        let k = choose|k: int| 0 <= k < h.len() && h[k] == x;
        assert(earley_chart::expected(g, h[k]) == Some(t.type_id));
        let c = m.columns[i as int].len();
        if k < c {
            assert(!earley_chart::wants_terminal(g, m.columns[i as int][k]));
        } else {
            let q = k - c;
            assert(m.scan[q] == h[k]);
            let f = earley_forest::token_added(m.forest, t);
            assert(earley_sound::nodes_derived(g, l, f));
            assert(reading::tok_at(l, i as int, i as int + 1, t.type_id));
            earley_exact::lemma_scanned_full(
                g,
                l,
                f,
                m.scan,
                t.type_id,
                ForestRef::Tok(m.forest.tokens.len() as usize),
                i as int,
                m.scan.len(),
            );
            assert(earley_chart::expected(g, m.scan[q]) == Some(t.type_id));
        }
    }
}

/// Where the parser reports an error, the start symbol does not derive the
/// tokens.
pub proof fn error_is_of_no_sentence(
    g: earley_chart::Context,
    start: SymbolId,
    tokens: Seq<tree::TokenModel>,
    e: error::ErrorModel,
)
    requires
        earley_sound::context_true(g),
        start.ix() >= g.nt,
        tokens.len() <= usize::MAX,
        earley_recognizer::chart_error(g, start, tokens, e),
    ensures
        !analysis::derives(g.rules, g.nt, start, cyk::types_of(tokens)),
{
    let types = cyk::types_of(tokens);
    if exists|i: nat|
        i < tokens.len() && #[trigger] earley_recognizer::stuck_at(g, start, tokens, i) {
        let i = choose|i: nat|
            i < tokens.len() && #[trigger] earley_recognizer::stuck_at(g, start, tokens, i);
        stuck_is_no_beginning(g, start, tokens, i, types);
    } else {
        let m = choose|m: earley_chart::ChartModel|
            #[trigger] earley_recognizer::charted(g, start, tokens, tokens.len(), m)
                && earley_forest::find_node(
                m.forest.nodes,
                NodeKey::Sym(start),
                0,
                tokens.len() as usize,
                0,
            ) is None;
        let hist = earley_exact::lemma_charted_full(g, start, tokens, types, tokens.len(), m);
        if analysis::derives(g.rules, g.nt, start, types) {
            let l = reading::of_types(types, start);
            reading::lemma_types_tight(types, start, 0, types.len() as int);
            assert(types.subrange(0, types.len() as int) =~= types);
            reading::lemma_tight_bounds(l, 0, types.len() as int, types);
            earley_reach::lemma_sentence_reached(
                g,
                start,
                l,
                m,
                hist,
                tokens.len() as int,
                types,
            );
            earley_forest::lemma_find_node(
                m.forest.nodes,
                NodeKey::Sym(start),
                0,
                tokens.len() as usize,
                0,
            );
        }
    }
}

/// Where the parser builds a forest, the forest has a tree, whether one derivation
/// is chosen or all are shown.
pub proof fn forest_has_a_tree(
    g: earley_chart::Context,
    start: SymbolId,
    tokens: Seq<tree::TokenModel>,
    w: earley_rank::Walk,
    root: usize,
)
    requires
        earley_sound::context_true(g),
        earley_fill::flags_true(g),
        tokens.len() <= usize::MAX,
        earley_recognizer::forest_of(g, start, tokens, w.forest, root),
    ensures
        earley_tree::transformed(w, root as int) is Some,
{
    let f = w.forest;
    let (k, gr) = lemma_forest_buildable(g, start, tokens, f, root);
    if w.resolve {
        earley_build::lemma_root_built(w, k, root);
    } else {
        assert forall|i: int, j: int|
            0 <= i < f.nodes.len() && 0 <= j < f.nodes[i].families.len() implies
            earley_explicit::parts_fit(f, #[trigger] f.nodes[i].families[j]) by {
            assert(earley_shape::is_family(g, gr, f, f.nodes[i], f.nodes[i].families[j]));
        }
        earley_explicit::lemma_root_shown(w, k, root);
    }
}

} // verus!
