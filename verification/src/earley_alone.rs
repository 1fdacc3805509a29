//! Symbols that derive other symbols alone, and forests in which no node rests on
//! itself.

use vstd::prelude::*;
use crate::analysis;
use crate::earley_chain;
use crate::earley_chart;
use crate::earley_fill;
use crate::earley_forest;
use crate::earley_forest::{ForestRef, NodeKey, Packed};
use crate::earley_shape;
use crate::symbols;
use crate::symbols::SymbolId;

verus! {

// ---------------------------------------------------------------------------
// Grammars

/// Whether all symbols of a rule but number `k` derive nothing.
pub open spec fn is_lone(rules: Seq<symbols::RuleModel>, nt: nat, r: int, k: int) -> bool {
    &&& 0 <= r < rules.len()
    &&& 0 <= k < rules[r].expansion.len()
    &&& forall|j: int|
        0 <= j < rules[r].expansion.len() && j != k ==> analysis::nullable(
            rules,
            nt,
            #[trigger] rules[r].expansion[j],
        )
}

/// Whether `s` derives the symbol `t` alone, by at least one rule and at most `d`.
pub open spec fn derives_alone(
    rules: Seq<symbols::RuleModel>,
    nt: nat,
    s: SymbolId,
    t: SymbolId,
    d: nat,
) -> bool
    decreases d,
{
    d > 0 && exists|r: int, k: int| #[trigger]
        is_lone(rules, nt, r, k) && rules[r].origin == s && (rules[r].expansion[k] == t
            || derives_alone(rules, nt, rules[r].expansion[k], t, (d - 1) as nat))
}

/// Whether `s` derives the symbol `t` alone, by at least one rule.
pub open spec fn is_alone(
    rules: Seq<symbols::RuleModel>,
    nt: nat,
    s: SymbolId,
    t: SymbolId,
) -> bool {
    exists|d: nat| #[trigger] derives_alone(rules, nt, s, t, d)
}

/// Whether no symbol derives itself alone.
pub open spec fn has_no_loops(rules: Seq<symbols::RuleModel>, nt: nat) -> bool {
    forall|s: SymbolId| !#[trigger] is_alone(rules, nt, s, s)
}

proof fn lemma_alone_one(rules: Seq<symbols::RuleModel>, nt: nat, r: int, k: int)
    requires
        is_lone(rules, nt, r, k),
    ensures
        is_alone(rules, nt, rules[r].origin, rules[r].expansion[k]),
{
    assert(derives_alone(rules, nt, rules[r].origin, rules[r].expansion[k], 1));
}

proof fn lemma_alone_on(
    rules: Seq<symbols::RuleModel>,
    nt: nat,
    s: SymbolId,
    t: SymbolId,
    u: SymbolId,
    d: nat,
)
    requires
        derives_alone(rules, nt, s, t, d),
        is_alone(rules, nt, t, u),
    ensures
        is_alone(rules, nt, s, u),
    decreases d,
{
    let (r, k) = choose|r: int, k: int| #[trigger]
        is_lone(rules, nt, r, k) && rules[r].origin == s && (rules[r].expansion[k] == t
            || derives_alone(rules, nt, rules[r].expansion[k], t, (d - 1) as nat));
    let x = rules[r].expansion[k];
    if x != t {
        lemma_alone_on(rules, nt, x, t, u, (d - 1) as nat);
    }
    let e = choose|e: nat| #[trigger] derives_alone(rules, nt, x, u, e);
    assert(is_lone(rules, nt, r, k));
    assert(derives_alone(rules, nt, s, u, e + 1));
}

/// What a symbol derives alone derives on.
proof fn lemma_alone_trans(
    rules: Seq<symbols::RuleModel>,
    nt: nat,
    s: SymbolId,
    t: SymbolId,
    u: SymbolId,
)
    requires
        is_alone(rules, nt, s, t),
        is_alone(rules, nt, t, u),
    ensures
        is_alone(rules, nt, s, u),
{
    let d = choose|d: nat| #[trigger] derives_alone(rules, nt, s, t, d);
    lemma_alone_on(rules, nt, s, t, u, d);
}

// ---------------------------------------------------------------------------
// Labels

/// Whether all of the first `d` symbols of a rule but number `j` derive nothing.
pub open spec fn hangs(g: earley_chart::Context, r: int, d: int, j: int) -> bool {
    &&& 0 <= j < d <= g.rules[r].expansion.len()
    &&& forall|i: int|
        0 <= i < d && i != j ==> analysis::nullable(
            g.rules,
            g.nt,
            #[trigger] g.rules[r].expansion[i],
        )
}

/// Whether `s` is `t` or derives it alone.
pub open spec fn is_or_alone(g: earley_chart::Context, s: SymbolId, t: SymbolId) -> bool {
    s == t || is_alone(g.rules, g.nt, s, t)
}

/// Whether what a label stands for derives `t` alone.
pub open spec fn falls_to(g: earley_chart::Context, key: NodeKey, t: SymbolId) -> bool {
    match key {
        NodeKey::Sym(s) => is_or_alone(g, s, t),
        NodeKey::Inter(r, d) => exists|j: int| #[trigger]
            hangs(g, r as int, d as int, j) && is_or_alone(g, g.rules[r as int].expansion[j], t),
    }
}

/// Whether the symbols of a rule from number `d` on derive nothing.
pub open spec fn rest_null(g: earley_chart::Context, r: int, d: int, to: int) -> bool {
    forall|i: int|
        d <= i < to ==> analysis::nullable(g.rules, g.nt, #[trigger] g.rules[r].expansion[i])
}

/// Whether a node with the label `a` can rest on one with the label `b` that spans
/// the same.
pub open spec fn rests_on(g: earley_chart::Context, a: NodeKey, b: NodeKey) -> bool {
    match b {
        NodeKey::Sym(t) => match a {
            NodeKey::Sym(s) => is_alone(g.rules, g.nt, s, t),
            NodeKey::Inter(_r, _d) => falls_to(g, a, t),
        },
        NodeKey::Inter(r, d) => {
            ||| match a {
                NodeKey::Inter(q, e) => q == r && d < e && rest_null(
                    g,
                    r as int,
                    d as int,
                    e as int,
                ),
                NodeKey::Sym(_s) => false,
            }
            ||| falls_to(g, a, g.rules[r as int].origin) && rest_null(
                g,
                r as int,
                d as int,
                g.rules[r as int].expansion.len() as int,
            )
        },
    }
}

/// No node rests on one with its own label where no symbol derives itself alone.
proof fn lemma_never_on_itself(g: earley_chart::Context, key: NodeKey)
    requires
        has_no_loops(g.rules, g.nt),
        key matches NodeKey::Inter(r, d) ==> r < g.rules.len(),
    ensures
        !rests_on(g, key, key),
{
    if rests_on(g, key, key) {
        match key {
            NodeKey::Sym(s) => {
                assert(is_alone(g.rules, g.nt, s, s));
            },
            NodeKey::Inter(r, d) => {
                let o = g.rules[r as int].origin;
                let j = choose|j: int| #[trigger]
                    hangs(g, r as int, d as int, j) && is_or_alone(
                        g,
                        g.rules[r as int].expansion[j],
                        o,
                    );
                let x = g.rules[r as int].expansion[j];
                assert(is_lone(g.rules, g.nt, r as int, j)) by {
                    assert forall|i: int|
                        0 <= i < g.rules[r as int].expansion.len() && i != j implies
                        analysis::nullable(
                        g.rules,
                        g.nt,
                        #[trigger] g.rules[r as int].expansion[i],
                    ) by {}
                }
                lemma_alone_one(g.rules, g.nt, r as int, j);
                if x != o {
                    lemma_alone_trans(g.rules, g.nt, o, x, o);
                }
                assert(is_alone(g.rules, g.nt, o, o));
            },
        }
    }
}

/// What derives a symbol alone derives what that symbol derives alone.
proof fn lemma_falls_on(g: earley_chart::Context, key: NodeKey, t: SymbolId, u: SymbolId)
    requires
        falls_to(g, key, t),
        is_alone(g.rules, g.nt, t, u),
    ensures
        falls_to(g, key, u),
        key matches NodeKey::Sym(s) ==> is_alone(g.rules, g.nt, s, u),
{
    match key {
        NodeKey::Sym(s) => {
            if s != t {
                lemma_alone_trans(g.rules, g.nt, s, t, u);
            }
        },
        NodeKey::Inter(r, d) => {
            let j = choose|j: int| #[trigger]
                hangs(g, r as int, d as int, j) && is_or_alone(
                    g,
                    g.rules[r as int].expansion[j],
                    t,
                );
            let x = g.rules[r as int].expansion[j];
            if x != t {
                lemma_alone_trans(g.rules, g.nt, x, t, u);
            }
            assert(hangs(g, r as int, d as int, j));
        },
    }
}

/// What rests on a rule up to a symbol that derives nothing rests on the rule before
/// that symbol.
proof fn lemma_rests_left(g: earley_chart::Context, a: NodeKey, r: int, d: int)
    requires
        0 <= r < g.rules.len() <= usize::MAX,
        0 < d < g.rules[r].expansion.len() <= usize::MAX,
        analysis::nullable(g.rules, g.nt, g.rules[r].expansion[d]),
    ensures
        rests_on(
            g,
            earley_chart::key_at(g, r as usize, d + 1),
            NodeKey::Inter(r as usize, d as usize),
        ),
        rests_on(g, a, earley_chart::key_at(g, r as usize, d + 1)) ==> rests_on(
            g,
            a,
            NodeKey::Inter(r as usize, d as usize),
        ),
{
    let b = earley_chart::key_at(g, r as usize, d + 1);
    let o = g.rules[r].origin;
    let len = g.rules[r].expansion.len() as int;
    if d + 1 == len {
        assert(rest_null(g, r, d, len));
        assert(falls_to(g, b, o));
        if rests_on(g, a, b) {
            assert(falls_to(g, a, o));
        }
    } else {
        assert(rest_null(g, r, d, d + 1));
        if rests_on(g, a, b) {
            if falls_to(g, a, o) && rest_null(g, r, d + 1, len) {
                assert(rest_null(g, r, d, len)) by {
                    assert forall|i: int| d <= i < len implies analysis::nullable(
                        g.rules,
                        g.nt,
                        #[trigger] g.rules[r].expansion[i],
                    ) by {}
                }
            } else {
                let e = a->Inter_1;
                assert(rest_null(g, r, d, e as int)) by {
                    assert forall|i: int| d <= i < e implies analysis::nullable(
                        g.rules,
                        g.nt,
                        #[trigger] g.rules[r].expansion[i],
                    ) by {}
                }
            }
        }
    }
}

/// What rests on a rule up to a symbol before which nothing is derived rests on that
/// symbol.
proof fn lemma_rests_right(g: earley_chart::Context, a: NodeKey, r: int, d: int)
    requires
        0 <= r < g.rules.len() <= usize::MAX,
        0 <= d < g.rules[r].expansion.len() <= usize::MAX,
        rest_null(g, r, 0, d),
        a matches NodeKey::Inter(q, e) ==> q < g.rules.len() && e
            <= g.rules[q as int].expansion.len(),
    ensures
        rests_on(
            g,
            earley_chart::key_at(g, r as usize, d + 1),
            NodeKey::Sym(g.rules[r].expansion[d]),
        ),
        rests_on(g, a, earley_chart::key_at(g, r as usize, d + 1)) ==> rests_on(
            g,
            a,
            NodeKey::Sym(g.rules[r].expansion[d]),
        ),
{
    let b = earley_chart::key_at(g, r as usize, d + 1);
    let o = g.rules[r].origin;
    let x = g.rules[r].expansion[d];
    let len = g.rules[r].expansion.len() as int;
    if d + 1 == len {
        assert(is_lone(g.rules, g.nt, r, d));
        lemma_alone_one(g.rules, g.nt, r, d);
        if rests_on(g, a, b) {
            assert(falls_to(g, a, o));
            lemma_falls_on(g, a, o, x);
        }
    } else {
        assert(hangs(g, r, d + 1, d));
        assert(is_or_alone(g, x, x));
        if rests_on(g, a, b) {
            if falls_to(g, a, o) && rest_null(g, r, d + 1, len) {
                assert(is_lone(g.rules, g.nt, r, d)) by {
                    assert forall|i: int| 0 <= i < len && i != d implies analysis::nullable(
                        g.rules,
                        g.nt,
                        #[trigger] g.rules[r].expansion[i],
                    ) by {}
                }
                lemma_alone_one(g.rules, g.nt, r, d);
                lemma_falls_on(g, a, o, x);
            } else {
                let e = a->Inter_1;
                assert(hangs(g, r, e as int, d)) by {
                    assert forall|i: int| 0 <= i < e && i != d implies analysis::nullable(
                        g.rules,
                        g.nt,
                        #[trigger] g.rules[r].expansion[i],
                    ) by {}
                }
            }
        }
    }
}

// ---------------------------------------------------------------------------
// Nodes

/// Whether node `y` can rest on node `x`.
pub open spec fn is_above(
    g: earley_chart::Context,
    f: earley_forest::ForestModel,
    y: int,
    x: int,
) -> bool {
    let a = f.nodes[y];
    let b = f.nodes[x];
    &&& a.start <= b.start
    &&& b.end <= a.end
    &&& a.start == b.start && a.end == b.end ==> rests_on(g, a.key, b.key)
}

/// Whether the label of a node is one of the grammar.
pub open spec fn is_named(g: earley_chart::Context, n: earley_forest::NodeModel) -> bool {
    n.key matches NodeKey::Inter(q, e) ==> q < g.rules.len() && e
        <= g.rules[q as int].expansion.len()
}

/// No node rests on itself where no symbol derives itself alone.
pub proof fn lemma_not_above_itself(
    g: earley_chart::Context,
    f: earley_forest::ForestModel,
    x: int,
)
    requires
        has_no_loops(g.rules, g.nt),
        is_named(g, f.nodes[x]),
    ensures
        !is_above(g, f, x, x),
{
    lemma_never_on_itself(g, f.nodes[x].key);
}

/// A node with families is labelled as the grammar has it.
pub proof fn lemma_named(
    g: earley_chart::Context,
    gr: earley_shape::Ground,
    f: earley_forest::ForestModel,
    x: int,
    j: int,
)
    requires
        earley_chart::context_ok(g),
        earley_shape::families_fit(g, gr, f),
        0 <= x < f.nodes.len(),
        0 <= j < f.nodes[x].families.len(),
    ensures
        is_named(g, f.nodes[x]),
{
    assert(earley_shape::is_family(g, gr, f, f.nodes[x], f.nodes[x].families[j]));
}

/// A node rests on the parts of its families, and so does what rests on it.
pub proof fn lemma_part_above(
    g: earley_chart::Context,
    gr: earley_shape::Ground,
    f: earley_forest::ForestModel,
    id: int,
    p: Packed,
    c: usize,
    y: int,
)
    requires
        earley_chart::context_ok(g),
        earley_fill::flags_true(g),
        !gr.loose,
        g.rules.len() <= usize::MAX,
        earley_shape::labels_ok(g, gr, f),
        earley_shape::is_family(g, gr, f, f.nodes[id], p),
        earley_chain::refers(p, c),
        c < f.nodes.len(),
        is_named(g, f.nodes[y]),
    ensures
        is_above(g, f, id, c as int),
        is_above(g, f, y, id) ==> is_above(g, f, y, c as int),
{
    let n = f.nodes[id];
    let r = p.rule as int;
    let d = p.right_pos as int;
    let e = g.rules[r].expansion;
    let mid = earley_shape::mid_of(f, n, p);
    let z = f.nodes[c as int];
    let a = f.nodes[y].key;
    assert(g.rules[r].origin.ix() >= g.nt && e.len() <= usize::MAX);
    assert(earley_shape::label_ok(g, gr, z.key, z.start, z.end));
    if z.start == n.start && z.end == n.end {
        if p.left == ForestRef::Node(c) {
            assert(mid == n.end);
            let o = p.right->Node_0 as int;
            assert(earley_shape::label_ok(
                g,
                gr,
                f.nodes[o].key,
                f.nodes[o].start,
                f.nodes[o].end,
            ));
            assert(g.rules[r].expansion[d].ix() < g.n);
            assert(analysis::nullable(g.rules, g.nt, e[d]));
            lemma_rests_left(g, a, r, d);
        } else {
            assert(mid == n.start);
            assert(rest_null(g, r, 0, d)) by {
                if d > 0 {
                    let o = p.left->Node_0 as int;
                    assert(earley_shape::label_ok(
                        g,
                        gr,
                        f.nodes[o].key,
                        f.nodes[o].start,
                        f.nodes[o].end,
                    ));
                    assert forall|i: int| 0 <= i < d implies analysis::nullable(
                        g.rules,
                        g.nt,
                        #[trigger] g.rules[r].expansion[i],
                    ) by {
                        assert(g.rules[r].expansion[i].ix() < g.n);
                        assert(g.nullable[g.rules[r].expansion[i].ix() as int]);
                    }
                }
            }
            lemma_rests_right(g, a, r, d);
        }
    }
}

} // verus!
