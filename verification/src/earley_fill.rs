//! Filling in a forest keeps it in shape: the nodes that derive nothing.

use vstd::prelude::*;
use crate::analysis;
use crate::bits;
use crate::earley_chart;
use crate::earley_forest;
use crate::earley_forest::{ForestRef, Item, NodeKey, Packed, Trans};
use crate::earley_good;
use crate::earley_paths;
use crate::earley_shape;
use crate::empty_values;
use crate::symbols::SymbolId;

verus! {

// ---------------------------------------------------------------------------
// Sizes

/// Making a node that derives nothing takes nothing away.
pub proof fn lemma_eps_sizes(
    g: earley_chart::Context,
    f: earley_forest::ForestModel,
    sym: SymbolId,
    col: usize,
    building: Seq<bool>,
    fuel: nat,
)
    ensures
        ({
            let (h, id, _b) = earley_paths::eps_made(g, f, sym, col, building, fuel);
            earley_shape::only_families(f, h) && earley_shape::new_to(f, h, col) && 0 <= id
                < h.nodes.len()
        }),
    decreases fuel, 0nat, 0nat,
{
    let (f1, id) = earley_forest::got(f, NodeKey::Sym(sym), col, col);
    earley_shape::lemma_entry_only(f, NodeKey::Sym(sym), col, col, no_parts(0), 0);
    if !(f1.nodes[id].families.len() > 0 || sym.ix() >= building.len() || building[sym.ix() as int]
        || fuel == 0) {
        lemma_rules_sizes(
            g,
            f1,
            sym,
            id,
            col,
            building.update(sym.ix() as int, true),
            g.rules.len(),
            (fuel - 1) as nat,
        );
        earley_shape::lemma_only_trans(
            f,
            f1,
            earley_paths::eps_made(g, f, sym, col, building, fuel).0,
        );
    }
}

/// A family without parts.
spec fn no_parts(rule: usize) -> Packed {
    Packed { rule, left: ForestRef::Nothing, right: ForestRef::Nothing, right_pos: 0 }
}

proof fn lemma_rules_sizes(
    g: earley_chart::Context,
    f: earley_forest::ForestModel,
    sym: SymbolId,
    id: int,
    col: usize,
    building: Seq<bool>,
    k: nat,
    fuel: nat,
)
    requires
        0 <= id < f.nodes.len(),
    ensures
        earley_shape::only_families(
            f,
            earley_paths::eps_rules(g, f, sym, id, col, building, k, fuel).0,
        ),
        earley_shape::new_to(
            f,
            earley_paths::eps_rules(g, f, sym, id, col, building, k, fuel).0,
            col,
        ),
    decreases fuel, 2nat, k,
{
    if k > 0 {
        lemma_rules_sizes(g, f, sym, id, col, building, (k - 1) as nat, fuel);
        let (f1, b1) = earley_paths::eps_rules(
            g,
            f,
            sym,
            id,
            col,
            building,
            (k - 1) as nat,
            fuel,
        );
        let r = g.rules[k - 1];
        if r.origin == sym && earley_paths::all_flagged(g.nullable, r.expansion) {
            if r.expansion.len() > 0 {
                lemma_parts_sizes(
                    g,
                    f1,
                    (k - 1) as usize,
                    col,
                    b1,
                    r.expansion.len(),
                    fuel,
                );
            }
        }
        earley_shape::lemma_only_trans(
            f,
            f1,
            earley_paths::eps_rules(g, f, sym, id, col, building, k, fuel).0,
        );
    }
}

proof fn lemma_parts_sizes(
    g: earley_chart::Context,
    f: earley_forest::ForestModel,
    rule: usize,
    col: usize,
    building: Seq<bool>,
    pos: nat,
    fuel: nat,
)
    ensures
        earley_shape::only_families(
            f,
            earley_paths::eps_parts(g, f, rule, col, building, pos, fuel).0,
        ),
        earley_shape::new_to(
            f,
            earley_paths::eps_parts(g, f, rule, col, building, pos, fuel).0,
            col,
        ),
    decreases fuel, 1nat, pos,
{
    if pos > 0 {
        lemma_parts_sizes(g, f, rule, col, building, (pos - 1) as nat, fuel);
        let (f1, left, b1) = earley_paths::eps_parts(
            g,
            f,
            rule,
            col,
            building,
            (pos - 1) as nat,
            fuel,
        );
        let s = g.rules[rule as int].expansion[pos - 1];
        lemma_eps_sizes(g, f1, s, col, b1, fuel);
        let (f2, child, _b2) = earley_paths::eps_made(g, f1, s, col, b1, fuel);
        let w = earley_paths::eps_parts(g, f, rule, col, building, pos, fuel).0;
        earley_shape::lemma_entry_only(
            f2,
            earley_paths::key_of(g, rule, pos as int),
            col,
            col,
            Packed {
                rule,
                left,
                right: ForestRef::Node(child as usize),
                right_pos: (pos - 1) as usize,
            },
            g.rules[rule as int].order,
        );
        earley_shape::lemma_only_trans(f, f1, f2);
        earley_shape::lemma_only_trans(f, f2, w);
    }
}

// ---------------------------------------------------------------------------
// Nodes that derive nothing

/// Whether parts are those of a rule up to position `d`, all at column `col`.
pub open spec fn fits(
    g: earley_chart::Context,
    f: earley_forest::ForestModel,
    left: ForestRef,
    right: ForestRef,
    r: int,
    d: int,
    col: usize,
) -> bool {
    if d == 0 {
        left is Nothing && right is Nothing
    } else {
        &&& earley_shape::is_at(
            f,
            right,
            NodeKey::Sym(g.rules[r].expansion[d - 1]),
            col,
            col,
        )
        &&& if d == 1 {
            left is Nothing
        } else {
            earley_shape::is_at(f, left, NodeKey::Inter(r as usize, (d - 1) as usize), col, col)
        }
    }
}

/// Whether node `x` has a family with the parts of a rule up to position `d`.
pub open spec fn rule_in(
    g: earley_chart::Context,
    f: earley_forest::ForestModel,
    x: int,
    r: int,
    d: int,
    col: usize,
) -> bool {
    exists|j: int|
        0 <= j < f.nodes[x].families.len() && fits(
            g,
            f,
            (#[trigger] f.nodes[x].families[j]).left,
            f.nodes[x].families[j].right,
            r,
            d,
            col,
        )
}

/// Whether node `x` has the families by which the first `k` rules let `s`
/// derive nothing.
pub open spec fn finished(
    g: earley_chart::Context,
    f: earley_forest::ForestModel,
    x: int,
    s: SymbolId,
    col: usize,
    k: int,
) -> bool {
    forall|r: int|
        0 <= r < k && (#[trigger] g.rules[r]).origin == s && earley_paths::all_flagged(
            g.nullable,
            g.rules[r].expansion,
        ) ==> rule_in(g, f, x, r, g.rules[r].expansion.len() as int, col)
}

/// Whether there is a node for a symbol that derives nothing at column `col`.
pub open spec fn has_eps(f: earley_forest::ForestModel, s: SymbolId, col: usize) -> bool {
    exists|x: int|
        0 <= x < f.nodes.len() && earley_forest::labelled(
            #[trigger] f.nodes[x],
            NodeKey::Sym(s),
            col,
            col,
        )
}

/// Whether a new node is one that derives nothing, and is finished unless its
/// symbol is among `open`.
pub open spec fn is_new_eps(
    g: earley_chart::Context,
    f: earley_forest::ForestModel,
    x: int,
    col: usize,
    building: Seq<bool>,
    open: Set<SymbolId>,
) -> bool {
    let n = f.nodes[x];
    &&& n.start == col
    &&& n.end == col
    &&& n.paths.len() == 0
    &&& match n.key {
        NodeKey::Sym(s) => {
            &&& s.ix() < building.len()
            &&& building[s.ix() as int]
            &&& open.contains(s) || finished(g, f, x, s, col, g.rules.len() as int)
        },
        NodeKey::Inter(_r, _d) => n.families.len() > 0,
    }
}

/// Whether `f` is `h` on its way to a forest with a node that derives nothing
/// at column `col`: `building` are the symbols whose nodes have been begun, and
/// `open` those whose nodes are not finished.
pub open spec fn eps_state(
    g: earley_chart::Context,
    arena: Seq<Trans>,
    gr: earley_shape::Ground,
    h: earley_forest::ForestModel,
    f: earley_forest::ForestModel,
    col: usize,
    building: Seq<bool>,
    open: Set<SymbolId>,
) -> bool {
    &&& earley_shape::in_shape(g, arena, gr, f)
    &&& earley_shape::grown(h, f)
    &&& building.len() == g.n
    &&& forall|s: SymbolId|
        s.ix() < g.n && #[trigger] building[s.ix() as int] ==> has_eps(f, s, col)
    &&& forall|s: SymbolId|
        #[trigger] open.contains(s) ==> s.ix() < g.n && building[s.ix() as int]
    &&& forall|x: int|
        h.nodes.len() <= x < f.nodes.len() ==> #[trigger] is_new_eps(g, f, x, col, building, open)
}

/// Whether the nodes that derive nothing at column `col` have families.
pub open spec fn eps_filled(h: earley_forest::ForestModel, col: usize) -> bool {
    forall|x: int|
        0 <= x < h.nodes.len() && (#[trigger] h.nodes[x]).start == col && h.nodes[x].end == col
            ==> h.nodes[x].families.len() > 0
}

proof fn lemma_rule_in_grown(
    g: earley_chart::Context,
    f: earley_forest::ForestModel,
    h: earley_forest::ForestModel,
    x: int,
    r: int,
    d: int,
    col: usize,
)
    requires
        earley_forest::extends(f, h),
        earley_shape::pairs_kept(f, h),
        0 <= x < f.nodes.len(),
        rule_in(g, f, x, r, d, col),
    ensures
        rule_in(g, h, x, r, d, col),
{
    let j = choose|j: int|
        0 <= j < f.nodes[x].families.len() && fits(
            g,
            f,
            (#[trigger] f.nodes[x].families[j]).left,
            f.nodes[x].families[j].right,
            r,
            d,
            col,
        );
    let p = f.nodes[x].families[j];
    assert(earley_forest::has_pair(h.nodes[x].families, p.left, p.right));
    let hs = h.nodes[x].families;
    let q = choose|q: int|
        0 <= q < hs.len() && (#[trigger] hs[q]).left == p.left && hs[q].right == p.right;
    if d > 0 {
        earley_shape::lemma_at_grown(
            f,
            h,
            p.right,
            NodeKey::Sym(g.rules[r].expansion[d - 1]),
            col,
            col,
        );
        if d > 1 {
            earley_shape::lemma_at_grown(
                f,
                h,
                p.left,
                NodeKey::Inter(r as usize, (d - 1) as usize),
                col,
                col,
            );
        }
    }
    assert(fits(g, h, h.nodes[x].families[q].left, h.nodes[x].families[q].right, r, d, col));
}

/// What has the families of all of its rules still has them where pairs are kept.
pub proof fn lemma_finished_kept(
    g: earley_chart::Context,
    f: earley_forest::ForestModel,
    h: earley_forest::ForestModel,
    x: int,
    s: SymbolId,
    col: usize,
    k: int,
)
    requires
        earley_forest::extends(f, h),
        earley_shape::pairs_kept(f, h),
        0 <= x < f.nodes.len(),
        finished(g, f, x, s, col, k),
    ensures
        finished(g, h, x, s, col, k),
{
    assert forall|r: int|
        0 <= r < k && (#[trigger] g.rules[r]).origin == s && earley_paths::all_flagged(
            g.nullable,
            g.rules[r].expansion,
        ) implies rule_in(g, h, x, r, g.rules[r].expansion.len() as int, col) by {
        lemma_rule_in_grown(g, f, h, x, r, g.rules[r].expansion.len() as int, col);
    }
}

/// What has the families of all of its rules still has them as the forest grows.
pub proof fn lemma_finished_grown(
    g: earley_chart::Context,
    f: earley_forest::ForestModel,
    h: earley_forest::ForestModel,
    x: int,
    s: SymbolId,
    col: usize,
    k: int,
)
    requires
        earley_shape::grown(f, h),
        0 <= x < f.nodes.len(),
        finished(g, f, x, s, col, k),
    ensures
        finished(g, h, x, s, col, k),
{
    assert forall|r: int|
        0 <= r < k && (#[trigger] g.rules[r]).origin == s && earley_paths::all_flagged(
            g.nullable,
            g.rules[r].expansion,
        ) implies rule_in(g, h, x, r, g.rules[r].expansion.len() as int, col) by {
        lemma_rule_in_grown(g, f, h, x, r, g.rules[r].expansion.len() as int, col);
    }
}

/// The state after a forest has grown by nodes that derive nothing.
proof fn lemma_state_grown(
    g: earley_chart::Context,
    arena: Seq<Trans>,
    gr: earley_shape::Ground,
    h: earley_forest::ForestModel,
    f: earley_forest::ForestModel,
    w: earley_forest::ForestModel,
    col: usize,
    building: Seq<bool>,
    open: Set<SymbolId>,
)
    requires
        eps_state(g, arena, gr, h, f, col, building, open),
        earley_shape::in_shape(g, arena, gr, w),
        earley_shape::grown(f, w),
        forall|x: int|
            0 <= x < f.nodes.len() ==> (#[trigger] w.nodes[x]).paths == f.nodes[x].paths,
        forall|x: int|
            f.nodes.len() <= x < w.nodes.len() ==> #[trigger] is_new_eps(
                g,
                w,
                x,
                col,
                building,
                open,
            ),
    ensures
        eps_state(g, arena, gr, h, w, col, building, open),
{
    earley_shape::lemma_grown_trans(h, f, w);
    assert forall|s: SymbolId| s.ix() < g.n && #[trigger] building[s.ix() as int] implies has_eps(
        w,
        s,
        col,
    ) by {
        assert(has_eps(f, s, col));
        let x = choose|x: int|
            0 <= x < f.nodes.len() && earley_forest::labelled(
                #[trigger] f.nodes[x],
                NodeKey::Sym(s),
                col,
                col,
            );
        assert(earley_forest::labelled(w.nodes[x], NodeKey::Sym(s), col, col));
    }
    assert forall|x: int| h.nodes.len() <= x < w.nodes.len() implies #[trigger] is_new_eps(
        g,
        w,
        x,
        col,
        building,
        open,
    ) by {
        if x < f.nodes.len() {
            assert(is_new_eps(g, f, x, col, building, open));
            let n = f.nodes[x];
            assert(earley_forest::labelled(w.nodes[x], n.key, n.start, n.end));
            assert(w.nodes[x].paths == f.nodes[x].paths);
            if let NodeKey::Sym(s) = n.key {
                if !open.contains(s) {
                    lemma_finished_grown(g, f, w, x, s, col, g.rules.len() as int);
                }
            }
        }
    }
}

/// The state with more symbols begun, and more of them open.
proof fn lemma_state_begun(
    g: earley_chart::Context,
    arena: Seq<Trans>,
    gr: earley_shape::Ground,
    h: earley_forest::ForestModel,
    f: earley_forest::ForestModel,
    col: usize,
    building: Seq<bool>,
    open: Set<SymbolId>,
    w: earley_forest::ForestModel,
    id: int,
    sym: SymbolId,
)
    requires
        eps_state(g, arena, gr, h, f, col, building, open),
        sym.ix() < g.n,
        !building[sym.ix() as int],
        w == earley_forest::got(f, NodeKey::Sym(sym), col, col).0,
        id == earley_forest::got(f, NodeKey::Sym(sym), col, col).1,
        earley_shape::in_shape(g, arena, gr, w),
        earley_shape::grown(f, w),
        0 <= id < w.nodes.len(),
        earley_forest::labelled(w.nodes[id], NodeKey::Sym(sym), col, col),
    ensures
        eps_state(
            g,
            arena,
            gr,
            h,
            w,
            col,
            building.update(sym.ix() as int, true),
            open.insert(sym),
        ),
{
    let b = building.update(sym.ix() as int, true);
    let o = open.insert(sym);
    earley_shape::lemma_grown_trans(h, f, w);
    assert forall|s: SymbolId| s.ix() < g.n && #[trigger] b[s.ix() as int] implies has_eps(
        w,
        s,
        col,
    ) by {
        if s.ix() == sym.ix() {
            assert(s == sym);
            assert(earley_forest::labelled(w.nodes[id], NodeKey::Sym(s), col, col));
        } else {
            assert(building[s.ix() as int]);
            let x = choose|x: int|
                0 <= x < f.nodes.len() && earley_forest::labelled(
                    #[trigger] f.nodes[x],
                    NodeKey::Sym(s),
                    col,
                    col,
                );
            assert(earley_forest::labelled(w.nodes[x], NodeKey::Sym(s), col, col));
        }
    }
    assert forall|s: SymbolId| #[trigger] o.contains(s) implies s.ix() < g.n
        && b[s.ix() as int] by {
        if s != sym {
            assert(open.contains(s));
        }
    }
    earley_forest::lemma_find_node(f.nodes, NodeKey::Sym(sym), col, col, 0);
    assert forall|x: int| h.nodes.len() <= x < w.nodes.len() implies #[trigger] is_new_eps(
        g,
        w,
        x,
        col,
        b,
        o,
    ) by {
        if x < f.nodes.len() {
            assert(is_new_eps(g, f, x, col, building, open));
            assert(w.nodes[x] == f.nodes[x]);
            if let NodeKey::Sym(s) = f.nodes[x].key {
                if !open.contains(s) {
                    lemma_finished_grown(g, f, w, x, s, col, g.rules.len() as int);
                }
            }
        }
    }
}

/// The state once a symbol's node is finished.
proof fn lemma_state_closed(
    g: earley_chart::Context,
    arena: Seq<Trans>,
    gr: earley_shape::Ground,
    h: earley_forest::ForestModel,
    f: earley_forest::ForestModel,
    col: usize,
    building: Seq<bool>,
    open: Set<SymbolId>,
    id: int,
    sym: SymbolId,
)
    requires
        eps_state(g, arena, gr, h, f, col, building, open.insert(sym)),
        0 <= id < f.nodes.len(),
        earley_forest::labelled(f.nodes[id], NodeKey::Sym(sym), col, col),
        finished(g, f, id, sym, col, g.rules.len() as int),
    ensures
        eps_state(g, arena, gr, h, f, col, building, open),
{
    assert forall|s: SymbolId| #[trigger] open.contains(s) implies s.ix() < g.n
        && building[s.ix() as int] by {
        assert(open.insert(sym).contains(s));
    }
    assert forall|x: int| h.nodes.len() <= x < f.nodes.len() implies #[trigger] is_new_eps(
        g,
        f,
        x,
        col,
        building,
        open,
    ) by {
        assert(is_new_eps(g, f, x, col, building, open.insert(sym)));
        if f.nodes[x].key == NodeKey::Sym(sym) {
            if x < id {
                assert(!earley_forest::labelled(
                    f.nodes[id],
                    f.nodes[x].key,
                    f.nodes[x].start,
                    f.nodes[x].end,
                ));
            } else if id < x {
                assert(!earley_forest::labelled(
                    f.nodes[x],
                    f.nodes[id].key,
                    f.nodes[id].start,
                    f.nodes[id].end,
                ));
            }
        }
    }
}

/// Making a node that derives nothing makes only such nodes, all finished but
/// for those that were open.
#[verifier::rlimit(30)]
pub proof fn lemma_eps_made(
    g: earley_chart::Context,
    arena: Seq<Trans>,
    gr: earley_shape::Ground,
    h: earley_forest::ForestModel,
    f: earley_forest::ForestModel,
    sym: SymbolId,
    col: usize,
    building: Seq<bool>,
    open: Set<SymbolId>,
    fuel: nat,
)
    requires
        earley_chart::context_ok(g),
        earley_shape::flags_closed(g),
        eps_filled(h, col),
        eps_state(g, arena, gr, h, f, col, building, open),
        sym.ix() < g.n,
        g.nullable[sym.ix() as int],
        fuel > bits::missing(building),
        earley_shape::within_limits(
            earley_paths::eps_made(g, f, sym, col, building, fuel).0,
        ),
    ensures
        ({
            let (w, id, b) = earley_paths::eps_made(g, f, sym, col, building, fuel);
            &&& eps_state(g, arena, gr, h, w, col, b, open)
            &&& earley_shape::grown(f, w)
            &&& 0 <= id < w.nodes.len()
            &&& earley_forest::labelled(w.nodes[id], NodeKey::Sym(sym), col, col)
            &&& bits::row_le(building, b)
        }),
    decreases fuel, 0nat, 0nat,
{
    let key = NodeKey::Sym(sym);
    let (f1, id) = earley_forest::got(f, key, col, col);
    earley_forest::lemma_find_node(f.nodes, key, col, col, 0);
    earley_shape::lemma_got_shape(g, arena, gr, f, key, col, col);
    if building[sym.ix() as int] {
        assert(has_eps(f, sym, col));
        let x = choose|x: int|
            0 <= x < f.nodes.len() && earley_forest::labelled(#[trigger] f.nodes[x], key, col, col);
        assert(f1 == f);
    } else if f1.nodes[id].families.len() > 0 {
        assert(f1 == f);
    } else {
        empty_values::lemma_visit(building, sym.ix() as int);
        lemma_state_begun(g, arena, gr, h, f, col, building, open, f1, id, sym);
        if id < h.nodes.len() {
            let n = h.nodes[id];
            assert(earley_forest::labelled(f.nodes[id], n.key, n.start, n.end));
            assert(h.nodes[id].families.len() > 0);
            assert(h.nodes[id].families.len() <= f.nodes[id].families.len());
        }
        let b1 = building.update(sym.ix() as int, true);
        lemma_eps_rules(
            g,
            arena,
            gr,
            h,
            f1,
            sym,
            id,
            col,
            b1,
            open.insert(sym),
            g.rules.len(),
            (fuel - 1) as nat,
        );
        let (w, b) = earley_paths::eps_rules(
            g,
            f1,
            sym,
            id,
            col,
            b1,
            g.rules.len(),
            (fuel - 1) as nat,
        );
        lemma_state_closed(g, arena, gr, h, w, col, b, open, id, sym);
        earley_shape::lemma_grown_trans(f, f1, w);
        assert forall|i: int| 0 <= i < building.len() && building[i] implies #[trigger] b[i] by {
            assert(b1[i]);
        }
    }
}

#[verifier::rlimit(30)]
proof fn lemma_eps_rules(
    g: earley_chart::Context,
    arena: Seq<Trans>,
    gr: earley_shape::Ground,
    h: earley_forest::ForestModel,
    f: earley_forest::ForestModel,
    sym: SymbolId,
    id: int,
    col: usize,
    building: Seq<bool>,
    open: Set<SymbolId>,
    k: nat,
    fuel: nat,
)
    requires
        earley_chart::context_ok(g),
        earley_shape::flags_closed(g),
        eps_filled(h, col),
        eps_state(g, arena, gr, h, f, col, building, open),
        open.contains(sym),
        0 <= id < f.nodes.len(),
        earley_forest::labelled(f.nodes[id], NodeKey::Sym(sym), col, col),
        k <= g.rules.len(),
        fuel > bits::missing(building),
        earley_shape::within_limits(
            earley_paths::eps_rules(g, f, sym, id, col, building, k, fuel).0,
        ),
    ensures
        ({
            let (w, b) = earley_paths::eps_rules(g, f, sym, id, col, building, k, fuel);
            &&& eps_state(g, arena, gr, h, w, col, b, open)
            &&& earley_shape::grown(f, w)
            &&& earley_forest::labelled(w.nodes[id], NodeKey::Sym(sym), col, col)
            &&& finished(g, w, id, sym, col, k as int)
            &&& bits::row_le(building, b)
        }),
    decreases fuel, 2nat, k,
{
    if k == 0 {
        earley_shape::lemma_grown_self(f);
    } else {
        let (f1, b1) = earley_paths::eps_rules(
            g,
            f,
            sym,
            id,
            col,
            building,
            (k - 1) as nat,
            fuel,
        );
        let (w, b) = earley_paths::eps_rules(g, f, sym, id, col, building, k, fuel);
        let r = g.rules[k - 1];
        lemma_rules_sizes(g, f, sym, id, col, building, (k - 1) as nat, fuel);
        let wanted = r.origin == sym && earley_paths::all_flagged(g.nullable, r.expansion);
        if wanted && r.expansion.len() > 0 {
            lemma_parts_sizes(g, f1, (k - 1) as usize, col, b1, r.expansion.len(), fuel);
        }
        earley_shape::lemma_sizes_limits(f1, w);
        lemma_eps_rules(
            g,
            arena,
            gr,
            h,
            f,
            sym,
            id,
            col,
            building,
            open,
            (k - 1) as nat,
            fuel,
        );
        bits::lemma_missing_le(building, b1);
        if wanted {
            if r.expansion.len() == 0 {
                let p = Packed {
                    rule: (k - 1) as usize,
                    left: ForestRef::Nothing,
                    right: ForestRef::Nothing,
                    right_pos: 0,
                };
                earley_shape::lemma_family_shape(g, arena, gr, f1, id, p, r.order);
                let fs = w.nodes[id].families;
                let j = choose|j: int|
                    0 <= j < fs.len() && (#[trigger] fs[j]).left == p.left && fs[j].right
                        == p.right;
                assert(fits(
                    g,
                    w,
                    w.nodes[id].families[j].left,
                    w.nodes[id].families[j].right,
                    k - 1,
                    0,
                    col,
                ));
                assert(rule_in(g, w, id, k - 1, 0, col));
                lemma_state_grown(g, arena, gr, h, f1, w, col, b, open);
            } else {
                lemma_eps_parts(
                    g,
                    arena,
                    gr,
                    h,
                    f1,
                    (k - 1) as usize,
                    col,
                    b1,
                    open,
                    r.expansion.len(),
                    fuel,
                );
                let (_w, left, _b) = earley_paths::eps_parts(
                    g,
                    f1,
                    (k - 1) as usize,
                    col,
                    b1,
                    r.expansion.len(),
                    fuel,
                );
                let x = left->Node_0 as int;
                assert(earley_forest::labelled(
                    w.nodes[id],
                    f1.nodes[id].key,
                    f1.nodes[id].start,
                    f1.nodes[id].end,
                ));
                if x < id {
                    assert(!earley_forest::labelled(
                        w.nodes[id],
                        w.nodes[x].key,
                        w.nodes[x].start,
                        w.nodes[x].end,
                    ));
                } else if id < x {
                    assert(!earley_forest::labelled(
                        w.nodes[x],
                        w.nodes[id].key,
                        w.nodes[id].start,
                        w.nodes[id].end,
                    ));
                }
                assert(rule_in(g, w, id, k - 1, r.expansion.len() as int, col));
            }
            earley_shape::lemma_grown_trans(f, f1, w);
            lemma_finished_grown(g, f1, w, id, sym, col, k - 1);
        }
        assert forall|i: int| 0 <= i < building.len() && building[i] implies #[trigger] b[i] by {
            assert(b1[i]);
        }
        assert forall|q: int|
            0 <= q < k && (#[trigger] g.rules[q]).origin == sym && earley_paths::all_flagged(
                g.nullable,
                g.rules[q].expansion,
            ) implies rule_in(g, w, id, q, g.rules[q].expansion.len() as int, col) by {
            if q < k - 1 {
                assert(finished(g, w, id, sym, col, k - 1));
            }
        }
    }
}

#[verifier::rlimit(30)]
proof fn lemma_eps_parts(
    g: earley_chart::Context,
    arena: Seq<Trans>,
    gr: earley_shape::Ground,
    h: earley_forest::ForestModel,
    f: earley_forest::ForestModel,
    rule: usize,
    col: usize,
    building: Seq<bool>,
    open: Set<SymbolId>,
    pos: nat,
    fuel: nat,
)
    requires
        earley_chart::context_ok(g),
        earley_shape::flags_closed(g),
        eps_filled(h, col),
        eps_state(g, arena, gr, h, f, col, building, open),
        rule < g.rules.len(),
        open.contains(g.rules[rule as int].origin),
        earley_paths::all_flagged(g.nullable, g.rules[rule as int].expansion),
        pos <= g.rules[rule as int].expansion.len(),
        fuel > bits::missing(building),
        earley_shape::within_limits(
            earley_paths::eps_parts(g, f, rule, col, building, pos, fuel).0,
        ),
    ensures
        ({
            let (w, left, b) = earley_paths::eps_parts(g, f, rule, col, building, pos, fuel);
            &&& eps_state(g, arena, gr, h, w, col, b, open)
            &&& earley_shape::grown(f, w)
            &&& bits::row_le(building, b)
            &&& if pos == 0 {
                left is Nothing
            } else {
                &&& earley_shape::is_at(
                    w,
                    left,
                    earley_chart::key_at(g, rule, pos as int),
                    col,
                    col,
                )
                &&& rule_in(g, w, left->Node_0 as int, rule as int, pos as int, col)
            }
        }),
    decreases fuel, 1nat, pos,
{
    if pos == 0 {
        earley_shape::lemma_grown_self(f);
    } else {
        let e = g.rules[rule as int].expansion;
        let s = e[pos - 1];
        assert(g.rules[rule as int].origin.ix() >= g.nt && e.len() <= usize::MAX);
        assert(g.rules[rule as int].expansion[pos - 1].ix() < g.n);
        let (f1, left, b1) = earley_paths::eps_parts(
            g,
            f,
            rule,
            col,
            building,
            (pos - 1) as nat,
            fuel,
        );
        let (f2, child, b2) = earley_paths::eps_made(g, f1, s, col, b1, fuel);
        let key = earley_chart::key_at(g, rule, pos as int);
        let (f3, node) = earley_forest::got(f2, key, col, col);
        let p = Packed {
            rule,
            left,
            right: ForestRef::Node(child as usize),
            right_pos: (pos - 1) as usize,
        };
        let (w, out, b) = earley_paths::eps_parts(g, f, rule, col, building, pos, fuel);
        let order = g.rules[rule as int].order;
        assert(w == earley_forest::family_added(f3, node, p, order));
        earley_shape::lemma_got_sizes(f2, key, col, col);
        earley_shape::lemma_family_sizes(f3, node, p, order);
        earley_shape::lemma_sizes_limits(f3, w);
        earley_shape::lemma_sizes_limits(f2, f3);
        lemma_eps_sizes(g, f1, s, col, b1, fuel);
        earley_shape::lemma_sizes_limits(f1, f2);
        lemma_eps_parts(
            g,
            arena,
            gr,
            h,
            f,
            rule,
            col,
            building,
            open,
            (pos - 1) as nat,
            fuel,
        );
        bits::lemma_missing_le(building, b1);
        lemma_eps_made(g, arena, gr, h, f1, s, col, b1, open, fuel);
        earley_shape::lemma_grown_trans(f, f1, f2);
        if pos > 1 {
            earley_shape::lemma_at_grown(
                f1,
                f2,
                left,
                earley_chart::key_at(g, rule, pos - 1),
                col,
                col,
            );
        }
        let n = earley_forest::bare_node(key, col, col);
        assert(earley_shape::is_family(g, gr, f2, n, p));
        earley_shape::lemma_entry_shape(g, arena, gr, f2, key, col, col, p, order);
        assert(earley_forest::extends(f2, w));
        let fs = w.nodes[node].families;
        let j = choose|j: int|
            0 <= j < fs.len() && (#[trigger] fs[j]).left == p.left && fs[j].right == p.right;
        earley_shape::lemma_at_grown(f2, w, p.right, NodeKey::Sym(s), col, col);
        if pos > 1 {
            earley_shape::lemma_at_grown(
                f2,
                w,
                left,
                earley_chart::key_at(g, rule, pos - 1),
                col,
                col,
            );
        }
        assert(fits(
            g,
            w,
            w.nodes[node].families[j].left,
            w.nodes[node].families[j].right,
            rule as int,
            pos as int,
            col,
        ));
        earley_forest::lemma_find_node(f2.nodes, key, col, col, 0);
        assert forall|x: int| f2.nodes.len() <= x < w.nodes.len() implies #[trigger] is_new_eps(
            g,
            w,
            x,
            col,
            b2,
            open,
        ) by {
            assert(x == node);
        }
        lemma_state_grown(g, arena, gr, h, f2, w, col, b2, open);
        earley_shape::lemma_grown_trans(f, f2, w);
        assert forall|i: int| 0 <= i < building.len() && building[i] implies #[trigger] b[i] by {
            assert(b1[i]);
        }
    }
}

// ---------------------------------------------------------------------------
// They can be built

/// Whether the flags of symbols that derive nothing are those of the grammar.
pub open spec fn flags_true(g: earley_chart::Context) -> bool {
    forall|s: SymbolId|
        s.ix() < g.n ==> #[trigger] g.nullable[s.ix() as int] == analysis::nullable(
            g.rules,
            g.nt,
            s,
        )
}

/// Symbols that derive nothing together derive nothing each.
proof fn lemma_each_nothing(
    g: earley_chart::Context,
    syms: Seq<SymbolId>,
    j: int,
    d: nat,
)
    requires
        analysis::derives_seq(g.rules, g.nt, syms, Seq::empty(), d),
        0 <= j < syms.len(),
    ensures
        analysis::derives_sym(g.rules, g.nt, syms[j], Seq::empty(), d),
    decreases syms.len(),
{
    let w = Seq::<SymbolId>::empty();
    let k = choose|k: int|
        0 <= k <= w.len() && analysis::derives_sym(
            g.rules,
            g.nt,
            syms.last(),
            #[trigger] w.skip(k),
            d,
        ) && analysis::derives_seq(g.rules, g.nt, syms.drop_last(), w.take(k), d);
    assert(w.skip(k) =~= w);
    assert(w.take(k) =~= w);
    if j < syms.len() - 1 {
        lemma_each_nothing(g, syms.drop_last(), j, d);
    }
}

/// Flags of the grammar are closed under the rules.
pub proof fn lemma_flags_closed(g: earley_chart::Context)
    requires
        earley_chart::context_ok(g),
        flags_true(g),
    ensures
        earley_shape::flags_closed(g),
{
    assert forall|r: int|
        0 <= r < g.rules.len() && earley_paths::all_flagged(
            g.nullable,
            (#[trigger] g.rules[r]).expansion,
        ) implies g.nullable[g.rules[r].origin.ix() as int] by {
        let e = g.rules[r].expansion;
        assert forall|j: int| 0 <= j < e.len() implies analysis::nullable(
            g.rules,
            g.nt,
            #[trigger] e[j],
        ) by {
            assert(g.rules[r].expansion[j].ix() < g.n);
            assert(g.nullable[e[j].ix() as int]);
        }
        analysis::lemma_all_nullable_derives(g.rules, g.nt, e);
        analysis::lemma_derives_rule(g.rules, g.nt, r, Seq::empty());
    }
}

/// What is known, where the nodes of `h` that derive nothing at column `col`
/// can be built, and the visited are among the nodes of `h`.
pub open spec fn nulls_known(
    h: earley_forest::ForestModel,
    k: earley_good::Known,
    col: usize,
) -> bool {
    &&& forall|x: int|
        0 <= x < h.nodes.len() && (#[trigger] h.nodes[x]).start == col && h.nodes[x].end == col
            ==> earley_good::is_good(h, k, x)
    &&& forall|x: usize| #[trigger] k.visited.contains(x) ==> x < h.nodes.len()
}

/// A part of a rule that derives nothing can be built where its symbols can.
proof fn lemma_inter_good(
    g: earley_chart::Context,
    arena: Seq<Trans>,
    gr: earley_shape::Ground,
    h: earley_forest::ForestModel,
    f: earley_forest::ForestModel,
    col: usize,
    building: Seq<bool>,
    k: earley_good::Known,
    r: usize,
    d: usize,
    y: int,
)
    requires
        earley_chart::context_ok(g),
        eps_state(g, arena, gr, h, f, col, building, Set::empty()),
        nulls_known(h, k, col),
        f.nodes.len() <= usize::MAX,
        0 <= y < f.nodes.len(),
        earley_forest::labelled(f.nodes[y], NodeKey::Inter(r, d), col, col),
        forall|i: int, x: int|
            #![trigger g.rules[r as int].expansion[i], f.nodes[x]]
            0 <= i < d && 0 <= x < f.nodes.len() && earley_forest::labelled(
                f.nodes[x],
                NodeKey::Sym(g.rules[r as int].expansion[i]),
                col,
                col,
            ) ==> earley_good::is_good(f, k, x),
    ensures
        earley_good::is_good(f, k, y),
    decreases d,
{
    if y < h.nodes.len() {
        let n = h.nodes[y];
        assert(earley_forest::labelled(f.nodes[y], n.key, n.start, n.end));
        assert(earley_good::is_good(h, k, y));
        earley_good::lemma_is_good_grown(h, f, k, y);
    } else {
        assert(is_new_eps(g, f, y, col, building, Set::empty()));
        let p = f.nodes[y].families[0];
        assert(earley_shape::is_family(g, gr, f, f.nodes[y], p));
        assert(g.rules[p.rule as int].expansion.len() <= usize::MAX);
        assert(p.rule == r && p.right_pos + 1 == d);
        let c = p.right->Node_0 as int;
        assert(earley_forest::labelled(
            f.nodes[c],
            NodeKey::Sym(g.rules[r as int].expansion[d - 1]),
            col,
            col,
        ));
        assert(earley_good::is_good(f, k, c));
        if d > 1 {
            lemma_inter_good(
                g,
                arena,
                gr,
                h,
                f,
                col,
                building,
                k,
                r,
                (d - 1) as usize,
                p.left->Node_0 as int,
            );
        }
        assert(earley_forest::has_pair(f.nodes[y].families, p.left, p.right));
        assert(!k.visited.contains(y as usize));
        earley_good::lemma_by_family(f, k, y, p.left, p.right);
    }
}

/// A node of a symbol that derives nothing can be built.
proof fn lemma_sym_good(
    g: earley_chart::Context,
    arena: Seq<Trans>,
    gr: earley_shape::Ground,
    h: earley_forest::ForestModel,
    f: earley_forest::ForestModel,
    col: usize,
    building: Seq<bool>,
    k: earley_good::Known,
    s: SymbolId,
    x: int,
    d: nat,
)
    requires
        earley_chart::context_ok(g),
        flags_true(g),
        eps_state(g, arena, gr, h, f, col, building, Set::empty()),
        nulls_known(h, k, col),
        f.nodes.len() <= usize::MAX,
        0 <= x < f.nodes.len(),
        earley_forest::labelled(f.nodes[x], NodeKey::Sym(s), col, col),
        analysis::derives_sym(g.rules, g.nt, s, Seq::empty(), d),
    ensures
        earley_good::is_good(f, k, x),
    decreases d,
{
    if x < h.nodes.len() {
        let n = h.nodes[x];
        assert(earley_forest::labelled(f.nodes[x], n.key, n.start, n.end));
        assert(earley_good::is_good(h, k, x));
        earley_good::lemma_is_good_grown(h, f, k, x);
    } else {
        assert(is_new_eps(g, f, x, col, building, Set::empty()));
        assert(finished(g, f, x, s, col, g.rules.len() as int));
        assert(s.ix() >= g.nt) by {
            if s.ix() < g.nt {
                assert(seq![s].len() == 1);
            }
        }
        let r = choose|r: int|
            0 <= r < g.rules.len() && (#[trigger] g.rules[r]).origin == s
                && analysis::derives_seq(
                g.rules,
                g.nt,
                g.rules[r].expansion,
                Seq::empty(),
                (d - 1) as nat,
            );
        let e = g.rules[r].expansion;
        assert forall|j: int| 0 <= j < e.len() implies analysis::derives_sym(
            g.rules,
            g.nt,
            #[trigger] e[j],
            Seq::empty(),
            (d - 1) as nat,
        ) && g.nullable[e[j].ix() as int] by {
            lemma_each_nothing(g, e, j, (d - 1) as nat);
            assert(g.rules[r].expansion[j].ix() < g.n);
            assert(analysis::nullable(g.rules, g.nt, e[j]));
        }
        assert(earley_paths::all_flagged(g.nullable, e));
        assert(rule_in(g, f, x, r, e.len() as int, col));
        let j = choose|j: int|
            0 <= j < f.nodes[x].families.len() && fits(
                g,
                f,
                (#[trigger] f.nodes[x].families[j]).left,
                f.nodes[x].families[j].right,
                r,
                e.len() as int,
                col,
            );
        let p = f.nodes[x].families[j];
        assert(earley_forest::has_pair(f.nodes[x].families, p.left, p.right));
        assert(!k.visited.contains(x as usize));
        if e.len() > 0 {
            assert forall|i: int, y: int|
                #![trigger g.rules[r].expansion[i], f.nodes[y]]
                0 <= i < e.len() && 0 <= y < f.nodes.len() && earley_forest::labelled(
                    f.nodes[y],
                    NodeKey::Sym(g.rules[r].expansion[i]),
                    col,
                    col,
                ) implies earley_good::is_good(f, k, y) by {
                assert(analysis::derives_sym(g.rules, g.nt, e[i], Seq::empty(), (d - 1) as nat));
                lemma_sym_good(
                    g,
                    arena,
                    gr,
                    h,
                    f,
                    col,
                    building,
                    k,
                    e[i],
                    y,
                    (d - 1) as nat,
                );
            }
            let c = p.right->Node_0 as int;
            assert(earley_forest::labelled(
                f.nodes[c],
                NodeKey::Sym(g.rules[r].expansion[e.len() - 1]),
                col,
                col,
            ));
            assert(earley_good::is_good(f, k, c));
            if e.len() > 1 {
                lemma_inter_good(
                    g,
                    arena,
                    gr,
                    h,
                    f,
                    col,
                    building,
                    k,
                    r as usize,
                    (e.len() - 1) as usize,
                    p.left->Node_0 as int,
                );
            }
        }
        earley_good::lemma_by_family(f, k, x, p.left, p.right);
    }
}

/// The nodes that derive nothing at column `col` can be built once they are
/// finished.
pub proof fn lemma_eps_good(
    g: earley_chart::Context,
    arena: Seq<Trans>,
    gr: earley_shape::Ground,
    h: earley_forest::ForestModel,
    f: earley_forest::ForestModel,
    col: usize,
    building: Seq<bool>,
    k: earley_good::Known,
    x: int,
)
    requires
        earley_chart::context_ok(g),
        flags_true(g),
        eps_state(g, arena, gr, h, f, col, building, Set::empty()),
        nulls_known(h, k, col),
        f.nodes.len() <= usize::MAX,
        h.nodes.len() <= x < f.nodes.len(),
    ensures
        earley_good::is_good(f, k, x),
{
    assert(is_new_eps(g, f, x, col, building, Set::empty()));
    assert(earley_shape::label_ok(g, gr, f.nodes[x].key, f.nodes[x].start, f.nodes[x].end));
    match f.nodes[x].key {
        NodeKey::Sym(s) => {
            assert(analysis::nullable(g.rules, g.nt, s));
            let d = choose|d: nat| #[trigger]
                analysis::derives_sym(g.rules, g.nt, s, Seq::empty(), d);
            lemma_sym_good(g, arena, gr, h, f, col, building, k, s, x, d);
        },
        NodeKey::Inter(r, d) => {
            let p = f.nodes[x].families[0];
            assert(earley_shape::is_family(g, gr, f, f.nodes[x], p));
            assert(g.rules[p.rule as int].expansion.len() <= usize::MAX);
            assert(p.rule == r && p.right_pos + 1 == d);
            assert forall|i: int, y: int|
                #![trigger g.rules[r as int].expansion[i], f.nodes[y]]
                0 <= i < d && 0 <= y < f.nodes.len() && earley_forest::labelled(
                    f.nodes[y],
                    NodeKey::Sym(g.rules[r as int].expansion[i]),
                    col,
                    col,
                ) implies earley_good::is_good(f, k, y) by {
                let s = g.rules[r as int].expansion[i];
                assert(s.ix() < g.n);
                assert(g.nullable[s.ix() as int]);
                assert(analysis::nullable(g.rules, g.nt, s));
                let q = choose|q: nat| #[trigger]
                    analysis::derives_sym(g.rules, g.nt, s, Seq::empty(), q);
                lemma_sym_good(g, arena, gr, h, f, col, building, k, s, y, q);
            }
            lemma_inter_good(g, arena, gr, h, f, col, building, k, r, d, x);
        },
    }
}

} // verus!
