//! The forest of a sentence has a family for every derivation of it.

use vstd::prelude::*;
use crate::analysis;
use crate::cyk;
use crate::derivation;
use crate::earley_alone;
use crate::earley_chain;
use crate::earley_chart;
use crate::earley_every;
use crate::earley_fill;
use crate::earley_filled;
use crate::earley_forest;
use crate::earley_forest::{ForestRef, Item, NodeKey};
use crate::earley_good;
use crate::earley_laws;
use crate::earley_led;
use crate::earley_load;
use crate::earley_offered;
use crate::earley_paths;
use crate::earley_places;
use crate::earley_rank;
use crate::earley_recognizer;
use crate::earley_shape;
use crate::earley_shown;
use crate::earley_sound;
use crate::earley_sprung;
use crate::earley_tree;
use crate::earley_value;
use crate::earley_whole;
use crate::earley_wired;
use crate::symbols;
use crate::symbols::SymbolId;
use crate::tree;
use crate::tree_builder;

verus! {

/// Whether no two rules of one symbol derive it by the same symbols.
pub open spec fn rules_differ(rules: Seq<symbols::RuleModel>) -> bool {
    forall|r: int, q: int|
        0 <= r < rules.len() && 0 <= q < rules.len() && (#[trigger] rules[r]).origin == (
        #[trigger] rules[q]).origin && rules[r].expansion == rules[q].expansion ==> r == q
}

/// The node of a symbol that spans nothing has the family of its empty rule.
proof fn lemma_empty_suit(
    g: earley_chart::Context,
    gr: earley_shape::Ground,
    arena: Seq<earley_forest::Trans>,
    w: earley_rank::Walk,
    id: int,
    r: int,
    xs: Seq<tree_builder::SlotModel>,
)
    requires
        earley_shape::families_fit(g, gr, w.forest),
        !gr.loose,
        rules_differ(g.rules),
        earley_whole::is_whole(g, arena, w.forest),
        0 <= id < w.forest.nodes.len(),
        0 <= r < g.rules.len() <= usize::MAX,
        g.rules[r].expansion.len() == 0,
        w.forest.nodes[id].key == earley_chart::key_at(g, r as usize, 0),
        earley_value::is_part(
            g,
            gr,
            w,
            r,
            0,
            w.forest.nodes[id].start,
            w.forest.nodes[id].end,
            xs,
        ),
    ensures
        earley_every::has_suit(g, gr, w, id, r, 0, xs),
{
    let f = w.forest;
    let n = f.nodes[id];
    let e = g.rules[r].expansion;
    let ts = choose|ts: Seq<tree::TokenModel>| #[trigger]
        earley_value::are_between(gr, w, n.start, n.end, ts) && derivation::yields_all(
            g.rules,
            g.nt,
            w.pp,
            e.take(0),
            ts,
            xs,
        );
    derivation::lemma_yields_len(g.rules, g.nt, w.pp, e.take(0), ts, xs);
    let d = choose|d: nat| #[trigger]
        derivation::yields_seq_in(g.rules, g.nt, w.pp, e.take(0), ts, xs, d);
    assert(ts.len() == 0);
    assert(n.start == n.end);
    let s = g.rules[r].origin;
    assert(earley_whole::nulls_done(g, f)) by {
        reveal(earley_whole::is_whole);
    }
    assert(earley_fill::finished(g, f, id, s, n.end, g.rules.len() as int));
    assert(earley_paths::all_flagged(g.nullable, e));
    assert(earley_fill::rule_in(g, f, id, r, 0, n.end));
    let j = choose|j: int|
        0 <= j < f.nodes[id].families.len() && earley_fill::fits(
            g,
            f,
            (#[trigger] f.nodes[id].families[j]).left,
            f.nodes[id].families[j].right,
            r,
            0,
            n.end,
        );
    let p = f.nodes[id].families[j];
    assert(earley_shape::is_family(g, gr, f, f.nodes[id], p));
    assert(g.rules[p.rule as int].expansion =~= e);
    assert(g.rules[p.rule as int].origin == g.rules[r].origin);
    assert(p.rule == r);
}

/// A family with the parts of a symbol of a rule is one of the rule.
proof fn lemma_part_rule(
    g: earley_chart::Context,
    gr: earley_shape::Ground,
    f: earley_forest::ForestModel,
    types: Seq<SymbolId>,
    id: int,
    r: int,
    d: int,
    p: int,
    j: int,
)
    requires
        earley_chart::context_ok(g),
        earley_shape::families_fit(g, gr, f),
        !gr.loose,
        rules_differ(g.rules),
        0 <= id < f.nodes.len(),
        0 <= r < g.rules.len() <= usize::MAX,
        0 <= d < g.rules[r].expansion.len(),
        f.nodes[id].key == earley_chart::key_at(g, r as usize, d + 1),
        0 <= j < f.nodes[id].families.len(),
        0 <= p <= usize::MAX,
        f.nodes[id].end <= types.len() == f.tokens.len(),
        forall|t: int| 0 <= t < types.len() ==> f.tokens[t].type_id == #[trigger] types[t],
        g.rules[r].expansion[d].ix() < g.nt ==> p < types.len() && types[p]
            == g.rules[r].expansion[d],
        earley_wired::left_ok(
            f,
            r,
            d,
            f.nodes[id].start as int,
            p,
            f.nodes[id].families[j].left,
        ),
        earley_wired::right_ok(
            g,
            f,
            g.rules[r].expansion[d],
            f.nodes[id].families[j].right,
            p,
            f.nodes[id].end as int,
        ),
    ensures
        f.nodes[id].families[j].rule == r,
        f.nodes[id].families[j].right_pos == d,
        !(f.nodes[id].families[j].right is Nothing),
        earley_shape::mid_of(f, f.nodes[id], f.nodes[id].families[j]) == p,
{
    let n = f.nodes[id];
    let z = f.nodes[id].families[j];
    let e = g.rules[r].expansion;
    let o = g.rules[z.rule as int].expansion;
    assert(earley_shape::is_family(g, gr, f, f.nodes[id], z));
    assert(g.rules[r].origin.ix() >= g.nt && e.len() <= usize::MAX);
    assert(g.rules[z.rule as int].origin.ix() >= g.nt && o.len() <= usize::MAX);
    if d + 1 == e.len() && d == 0 {
        assert(z.right_pos == 0);
        assert(o.len() == 1);
        assert(o[0] == e[0]) by {
            if e[0].ix() < g.nt {
                assert(f.tokens[p].type_id == types[p]);
            }
        }
        assert(o =~= e);
        assert(g.rules[z.rule as int].origin == g.rules[r].origin);
    }
}

/// The forest of a sentence has a family for every derivation.
proof fn lemma_has_every(
    g: earley_chart::Context,
    start: SymbolId,
    tokens: Seq<tree::TokenModel>,
    m: earley_chart::ChartModel,
    hist: Seq<Seq<Item>>,
    s: earley_paths::Loading,
    root: usize,
    w: earley_rank::Walk,
)
    requires
        earley_filled::is_filled(g, start, tokens, cyk::types_of(tokens), m, hist, s, root),
        rules_differ(g.rules),
        w.forest == s.forest,
        w.forest.tokens == tokens,
        tokens.len() <= usize::MAX,
    ensures
        earley_every::has_every(g, earley_shape::firm(m.columns, start), w, s.visited),
{
    let gr = earley_shape::firm(m.columns, start);
    let f = w.forest;
    let types = cyk::types_of(tokens);
    let k = earley_load::known_of(s);
    reveal(earley_every::has_every);
    assert forall|id: usize, r: int, dot: int, xs: Seq<tree_builder::SlotModel>|
        s.visited.contains(id) && w.forest.nodes[id as int].key == earley_chart::key_at(
            g,
            r as usize,
            dot,
        ) && (dot > 0 || g.rules[r].expansion.len() == 0) && #[trigger] earley_value::is_part(
            g,
            gr,
            w,
            r,
            dot,
            w.forest.nodes[id as int].start,
            w.forest.nodes[id as int].end,
            xs,
        ) implies earley_every::has_suit(g, gr, w, id as int, r, dot, xs) by {
        let i = id as int;
        let n = f.nodes[i];
        let e = g.rules[r].expansion;
        assert(k.visited.contains(id));
        assert(id < f.nodes.len());
        if dot == 0 {
            lemma_empty_suit(g, gr, m.arena, w, i, r, xs);
        } else {
            let d = dot - 1;
            let front = e.take(dot);
            let ts = choose|ts: Seq<tree::TokenModel>| #[trigger]
                earley_value::are_between(gr, w, n.start, n.end, ts) && derivation::yields_all(
                    g.rules,
                    g.nt,
                    w.pp,
                    front,
                    ts,
                    xs,
                );
            derivation::lemma_yields_len(g.rules, g.nt, w.pp, front, ts, xs);
            let c = derivation::lemma_yields_split(g.rules, g.nt, w.pp, front, ts, xs);
            assert(front.drop_last() =~= e.take(d));
            assert(front.last() == e[d]);
            let p = n.start + c;
            let a = ts.take(c);
            let b = ts.skip(c);
            let x = choose|x: nat| #[trigger] derivation::yields_seq_in(
                g.rules,
                g.nt,
                w.pp,
                e.take(d),
                a,
                xs.drop_last(),
                x,
            );
            derivation::lemma_yields_all_derives(
                g.rules,
                g.nt,
                w.pp,
                e.take(d),
                a,
                xs.drop_last(),
                x,
            );
            let y = choose|y: nat| #[trigger] derivation::yields_in(
                g.rules,
                g.nt,
                w.pp,
                e[d],
                b,
                xs.last(),
                y,
            );
            derivation::lemma_yields_derives(g.rules, g.nt, w.pp, e[d], b, xs.last(), y);
            assert(cyk::types_of(a) =~= types.subrange(n.start as int, p));
            assert(cyk::types_of(b) =~= types.subrange(p, n.end as int));
            assert(analysis::derives_all(
                g.rules,
                g.nt,
                e.take(d),
                types.subrange(n.start as int, p),
            ));
            assert(analysis::derives(g.rules, g.nt, e[d], types.subrange(p, n.end as int)));
            earley_filled::lemma_every_part(
                g,
                start,
                tokens,
                types,
                m,
                hist,
                s,
                root,
                id,
                r,
                d,
                p,
            );
            let (z, left, right) = choose|z: int, left: ForestRef, right: ForestRef| #[trigger]
                earley_wired::is_part(
                    g,
                    f,
                    r,
                    d,
                    n.start as int,
                    p,
                    n.end as int,
                    z,
                    left,
                    right,
                );
            earley_chain::lemma_same_node(f, i, z);
            let fs = f.nodes[i].families;
            let j = choose|j: int|
                0 <= j < fs.len() && (#[trigger] fs[j]).left == left && fs[j].right == right;
            if e[d].ix() < g.nt {
                assert(types.subrange(p, n.end as int).len() == 1);
                assert(types.subrange(p, n.end as int)[0] == e[d]);
            }
            lemma_part_rule(g, gr, f, types, i, r, d, p, j);
            let q = f.nodes[i].families[j];
            assert(a =~= earley_value::tokens_of(w, n.start, p as usize));
            assert(b =~= earley_value::tokens_of(w, p as usize, n.end));
            assert(earley_value::are_between(gr, w, n.start, p as usize, a));
            assert(earley_value::are_between(gr, w, p as usize, n.end, b));
            assert(earley_value::is_part(
                g,
                gr,
                w,
                r,
                d,
                n.start,
                p as usize,
                xs.drop_last(),
            ));
            assert(earley_value::is_valued(g, gr, w, e[d], p as usize, n.end, xs.last()));
            assert(earley_every::suits(g, gr, w, i, w.forest.nodes[i].families[j], xs));
        }
    }
}

/// The forest of a sentence, walked over, tells every derivation of it; `r` holds
/// what it stands on and the nodes visited.
pub proof fn lemma_forest_tells(
    g: earley_chart::Context,
    start: SymbolId,
    tokens: Seq<tree::TokenModel>,
    w: earley_rank::Walk,
    root: usize,
) -> (r: (earley_shape::Ground, Seq<usize>))
    requires
        earley_sound::context_true(g),
        earley_fill::flags_true(g),
        tokens.len() <= usize::MAX,
        g.rules.len() <= usize::MAX,
        earley_recognizer::forest_of(g, start, tokens, w.forest, root),
        rules_differ(g.rules),
        earley_alone::has_no_loops(g.rules, g.nt),
        w.rules == g.rules,
        !w.resolve,
        symbols::is_uniform(g.rules),
        earley_shown::keeps_symbols(g.rules, g.nt),
        earley_shown::names_differ(g.rules),
    ensures
        earley_every::tells(g, r.0, w, r.1),
        r.1.contains(root),
        !r.0.loose,
        w.forest.tokens == tokens,
        root < w.forest.nodes.len(),
        earley_forest::labelled(
            w.forest.nodes[root as int],
            NodeKey::Sym(start),
            0,
            tokens.len() as usize,
        ),
{
    let f = w.forest;
    let types = cyk::types_of(tokens);
    let n = tokens.len();
    let m = choose|m: earley_chart::ChartModel|
        #[trigger] earley_recognizer::charted(g, start, tokens, tokens.len(), m)
            && earley_forest::find_node(
            m.forest.nodes,
            NodeKey::Sym(start),
            0,
            tokens.len() as usize,
            0,
        ) == Some(root as int) && earley_paths::loaded(g, m.arena, m.forest, root, f);
    let from = earley_paths::Loading {
        forest: m.forest,
        stack: seq![root],
        visited: Seq::empty(),
    };
    let (c, s) = choose|c: nat, s: earley_paths::Loading|
        #[trigger] earley_paths::load_reaches(g, m.arena, from, s, c) && s.stack.len() == 0
            && s.forest == f;
    earley_load::lemma_run_limits(g, m.arena, from, c);
    earley_fill::lemma_flags_closed(g);
    let hist = earley_led::lemma_charted_led(g, start, tokens, types, n, m);
    earley_places::lemma_charted_shape(g, start, tokens, types, n, m);
    assert(tokens.take(n as int) =~= tokens);
    earley_laws::lemma_chart_arena(g, start, tokens, n, m);
    let gr = earley_shape::firm(m.columns, start);
    earley_laws::lemma_chart_links(g, gr, m, start, n as int);
    earley_forest::lemma_find_node(m.forest.nodes, NodeKey::Sym(start), 0, n as usize, 0);
    earley_load::lemma_load_begun(g, m.arena, gr, start, m.forest, root);
    earley_load::lemma_load_run(g, m.arena, gr, start, from, root, c);
    assert(earley_wired::is_whole_chart(g, start, tokens, types, m, hist));
    earley_filled::lemma_chart_whole(g, start, tokens, types, m, hist, root);
    earley_filled::lemma_load_whole(g, m.arena, gr, start, from, root, c);
    let k = earley_load::known_of(s);
    assert(!s.stack.contains(root));
    assert(earley_filled::ends_by(m.forest, n as usize)) by {
        assert(earley_sprung::chart_sprung(g, m, hist, n as int));
    }
    lemma_has_every(g, start, tokens, m, hist, s, root, w);
    assert forall|v: usize| #[trigger] s.visited.contains(v) implies earley_value::is_node(
        gr,
        w,
        v as int,
    ) && earley_alone::is_named(g, f.nodes[v as int]) && f.nodes[v as int].families.len() > 0 by {
        assert(k.visited.contains(v));
        assert(v < f.nodes.len());
        assert(earley_good::is_good(f, k, v as int));
        let b = choose|b: nat| #[trigger] earley_good::good(f, k, v as int, b);
        assert(f.nodes[v as int].paths.len() == 0);
        earley_alone::lemma_named(g, gr, f, v as int, 0);
        let o = f.nodes[v as int];
        assert(earley_shape::label_ok(g, gr, o.key, o.start, o.end));
        assert(f.nodes[v as int].end <= n);
    }
    assert forall|v: usize, j: int, c2: usize|
        #![trigger s.visited.contains(v), earley_chain::refers(f.nodes[v as int].families[j], c2)]
        s.visited.contains(v) && 0 <= j < f.nodes[v as int].families.len()
            && earley_chain::refers(f.nodes[v as int].families[j], c2) implies s.visited.contains(
        c2,
    ) by {
        assert(!s.stack.contains(c2));
        assert(earley_chain::refers(s.forest.nodes[v as int].families[j], c2));
    }
    (gr, s.visited)
}

/// The value of the root of a sentence's forest offers every value of it.
pub proof fn lemma_sentence_told(
    g: earley_chart::Context,
    start: SymbolId,
    tokens: Seq<tree::TokenModel>,
    w: earley_rank::Walk,
    root: usize,
    v: tree_builder::SlotModel,
)
    requires
        earley_sound::context_true(g),
        earley_fill::flags_true(g),
        tokens.len() <= usize::MAX,
        g.rules.len() <= usize::MAX,
        earley_recognizer::forest_of(g, start, tokens, w.forest, root),
        rules_differ(g.rules),
        earley_alone::has_no_loops(g.rules, g.nt),
        w.rules == g.rules,
        !w.resolve,
        symbols::is_uniform(g.rules),
        earley_shown::keeps_symbols(g.rules, g.nt),
        earley_shown::names_differ(g.rules),
        derivation::is_solid(g.rules, start),
        derivation::yields(g.rules, g.nt, w.pp, start, tokens, v),
    ensures
        earley_tree::transformed(w, root as int) matches Some(y) && earley_offered::offers(y, v)
            && earley_shown::is_plain(y),
{
    let (gr, vis) = lemma_forest_tells(g, start, tokens, w, root);
    let n = tokens.len() as usize;
    assert(earley_value::tokens_of(w, 0, n) =~= tokens);
    assert(earley_value::are_between(gr, w, 0, n, tokens));
    assert(earley_value::is_valued(g, gr, w, start, 0, n, v));
    earley_every::lemma_root_told(g, gr, w, vis, root, start, v);
}

} // verus!
