//! Where one derivation is chosen, the tree is that of the best: what else a forest
//! without cycles holds makes no difference.

use vstd::prelude::*;
use crate::earley_forest;
use crate::earley_forest::{ForestRef, Packed};
use crate::earley_rank;
use crate::earley_tree;
use crate::rank_laws;
use crate::tree;

verus! {

/// What the families of a node are worth.
pub open spec fn worths(w: earley_rank::Walk, worth: Seq<int>, id: int) -> Seq<int> {
    let n = w.forest.nodes[id];
    Seq::new(
        n.families.len(),
        |j: int| rank_laws::family_worth(w, worth, n.key, n.families[j]),
    )
}

/// Whether a family of a node beats all others.
pub open spec fn is_best(w: earley_rank::Walk, worth: Seq<int>, id: int, k: int) -> bool {
    let families = w.forest.nodes[id].families;
    &&& 0 <= k < families.len()
    &&& forall|j: int|
        0 <= j < families.len() && j != k ==> #[trigger] rank_laws::beats(
            w,
            families,
            worths(w, worth, id),
            k,
            j,
        )
}

/// Whether the families of a node are all transparent or none is.
pub open spec fn is_uniform(w: earley_rank::Walk, id: int) -> bool {
    let families = w.forest.nodes[id].families;
    forall|k: int|
        0 <= k < families.len() ==> w.rules[(#[trigger] families[k]).rule as int].transparent
            == w.rules[families[0].rule as int].transparent
}

/// Whether `best` names the best family of each node of a forest without cycles.
pub open spec fn is_choice(
    w: earley_rank::Walk,
    depth: Seq<nat>,
    worth: Seq<int>,
    best: Seq<usize>,
) -> bool {
    &&& earley_tree::walk_ok(w)
    &&& w.resolve
    &&& rank_laws::is_layered(w, depth)
    &&& rank_laws::weighs(w, worth)
    &&& best.len() == depth.len()
    &&& forall|id: int|
        0 <= id < best.len() ==> is_best(w, worth, id, #[trigger] best[id] as int) && is_uniform(
            w,
            id,
        )
}

/// A forest with a single family left at each node.
pub open spec fn pruned(w: earley_rank::Walk, best: Seq<usize>) -> earley_rank::Walk {
    earley_rank::Walk {
        forest: earley_forest::ForestModel {
            nodes: Seq::new(
                w.forest.nodes.len(),
                |i: int|
                    earley_forest::NodeModel {
                        families: seq![w.forest.nodes[i].families[best[i] as int]],
                        ..w.forest.nodes[i]
                    },
            ),
            ..w.forest
        },
        ..w
    }
}

/// Whether two walks have found the same, but for priorities.
spec fn is_same(a: earley_rank::Found, b: earley_rank::Found) -> bool {
    b == (earley_rank::Found { prio: b.prio, ..a })
}

/// The best family is tried first.
proof fn lemma_first(
    w: earley_rank::Walk,
    depth: Seq<nat>,
    worth: Seq<int>,
    best: Seq<usize>,
    id: int,
    prio: Seq<Option<i64>>,
)
    requires
        is_choice(w, depth, worth, best),
        rank_laws::is_true_to(worth, prio),
        0 <= id < depth.len(),
    ensures
        ({
            let r = earley_rank::tried(w, id, prio);
            &&& r.0.len() > 0
            &&& r.0[0] == best[id]
            &&& rank_laws::is_true_to(worth, r.1)
        }),
{
    let families = w.forest.nodes[id].families;
    let order = earley_rank::tried(w, id, prio).0;
    let prios = earley_rank::family_priorities(w, id, prio, families.len()).0;
    rank_laws::best_families_are_tried_first(w, id, prio);
    rank_laws::priorities_add_up(w, depth, worth, id, prio);
    let k = best[id];
    assert(is_best(w, worth, id, k as int));
    assert(order.contains(k));
    let i = choose|i: int| 0 <= i < order.len() && order[i] == k;
    if i > 0 {
        let a = order[0] as int;
        assert(order[i] == k);
        let vs = worths(w, worth, id);
        assert(rank_laws::beats(w, families, vs, k as int, a));
        assert(prios[a] == vs[a] && prios[k as int] == vs[k as int]);
    }
}

/// A single family is tried first.
proof fn lemma_only(
    w: earley_rank::Walk,
    best: Seq<usize>,
    id: int,
    prio: Seq<Option<i64>>,
)
    requires
        0 <= id < w.forest.nodes.len(),
    ensures
        earley_rank::tried(pruned(w, best), id, prio).0 == seq![0usize],
{
    let v = pruned(w, best);
    let families = v.forest.nodes[id].families;
    assert(families.len() == 1);
    let vs = earley_rank::family_priorities(v, id, prio, families.len()).0;
    reveal_with_fuel(earley_rank::in_order, 2);
    assert(earley_rank::in_order(v, families, vs, 1) =~= seq![0usize]);
}

proof fn lemma_rule(
    w: earley_rank::Walk,
    depth: Seq<nat>,
    worth: Seq<int>,
    best: Seq<usize>,
    id: int,
    b: earley_tree::Buffer,
    m: earley_rank::Found,
    m2: earley_rank::Found,
    visiting: Seq<bool>,
)
    requires
        is_choice(w, depth, worth, best),
        0 <= id < depth.len(),
        rank_laws::above(depth, visiting, depth[id] + 1),
        is_same(m, m2),
        rank_laws::is_true_to(worth, m.prio),
    ensures
        ({
            let x = earley_tree::rule_appended(w, id, b, m, visiting);
            let y = earley_tree::rule_appended(pruned(w, best), id, b, m2, visiting);
            &&& x.0 is Some
            &&& x.0 == y.0
            &&& x.1 == y.1
            &&& is_same(x.2, y.2)
            &&& rank_laws::is_true_to(worth, x.2.prio)
        }),
    decreases depth[id], 2nat,
{
    let v = pruned(w, best);
    lemma_first(w, depth, worth, best, id, m.prio);
    lemma_only(w, best, id, m2.prio);
    let (order, prio) = earley_rank::tried(w, id, m.prio);
    let (order2, prio2) = earley_rank::tried(v, id, m2.prio);
    let inner = visiting.update(id, true);
    assert(rank_laws::above(depth, inner, depth[id]));
    let p = w.forest.nodes[id].families[best[id] as int];
    assert(is_best(w, worth, id, best[id] as int));
    let e = earley_rank::entered(m, prio);
    let e2 = earley_rank::entered(m2, prio2);
    lemma_packed(w, depth, worth, best, id, p, b, e, e2, inner);
    assert(v.forest.nodes[id].families[order2[0] as int] == p);
    assert(!visiting[id]);
    let x = earley_tree::families_tried(w, id, order, 0, b, e, inner);
    let y = earley_tree::families_tried(v, id, order2, 0, b, e2, inner);
    assert(x.0 == Some(p.rule as int));
    assert(y.0 == Some(p.rule as int));
}

proof fn lemma_packed(
    w: earley_rank::Walk,
    depth: Seq<nat>,
    worth: Seq<int>,
    best: Seq<usize>,
    id: int,
    p: Packed,
    b: earley_tree::Buffer,
    m: earley_rank::Found,
    m2: earley_rank::Found,
    visiting: Seq<bool>,
)
    requires
        is_choice(w, depth, worth, best),
        0 <= id < depth.len(),
        p == w.forest.nodes[id].families[best[id] as int],
        rank_laws::above(depth, visiting, depth[id]),
        is_same(m, m2),
        rank_laws::is_true_to(worth, m.prio),
    ensures
        ({
            let x = earley_tree::packed_appended(w, p, b, m, visiting);
            let y = earley_tree::packed_appended(pruned(w, best), p, b, m2, visiting);
            &&& x.0
            &&& y.0
            &&& x.1 == y.1
            &&& is_same(x.2, y.2)
            &&& rank_laws::is_true_to(worth, x.2.prio)
        }),
    decreases depth[id], 1nat,
{
    let v = pruned(w, best);
    assert(is_best(w, worth, id, best[id] as int));
    assert(earley_forest::families_ok(w.forest, w.rules.len(), w.forest.nodes[id]));
    assert(earley_forest::packed_ok(w.forest, w.rules.len(), p));
    assert(rank_laws::is_below(depth, p.left, depth[id]));
    match p.left {
        ForestRef::Nothing => {
            lemma_right(w, depth, worth, best, id, p, b, m, m2, visiting);
        },
        ForestRef::Node(l) => {
            lemma_rule(w, depth, worth, best, l as int, b, m, m2, visiting);
            let x = earley_tree::rule_appended(w, l as int, b, m, visiting);
            let y = earley_tree::rule_appended(v, l as int, b, m2, visiting);
            lemma_right(w, depth, worth, best, id, p, x.1, x.2, y.2, visiting);
        },
        ForestRef::Tok(t) => {
            let x = earley_tree::token_value(w, t as int);
            let b1 = earley_tree::Buffer {
                nodes: b.nodes.push(tree::Node::Token(w.forest.tokens[t as int])),
                span: earley_tree::span_with(w, b.span, x),
            };
            assert(earley_tree::token_value(v, t as int) == x);
            lemma_right(w, depth, worth, best, id, p, b1, m, m2, visiting);
        },
    }
}

proof fn lemma_right(
    w: earley_rank::Walk,
    depth: Seq<nat>,
    worth: Seq<int>,
    best: Seq<usize>,
    id: int,
    p: Packed,
    b: earley_tree::Buffer,
    m: earley_rank::Found,
    m2: earley_rank::Found,
    visiting: Seq<bool>,
)
    requires
        is_choice(w, depth, worth, best),
        0 <= id < depth.len(),
        p == w.forest.nodes[id].families[best[id] as int],
        rank_laws::above(depth, visiting, depth[id]),
        is_same(m, m2),
        rank_laws::is_true_to(worth, m.prio),
    ensures
        ({
            let x = earley_tree::right_appended(w, p, b, m, visiting);
            let y = earley_tree::right_appended(pruned(w, best), p, b, m2, visiting);
            &&& x.0
            &&& y.0
            &&& x.1 == y.1
            &&& is_same(x.2, y.2)
            &&& rank_laws::is_true_to(worth, x.2.prio)
        }),
    decreases depth[id], 0nat,
{
    let v = pruned(w, best);
    assert(is_best(w, worth, id, best[id] as int));
    assert(earley_forest::families_ok(w.forest, w.rules.len(), w.forest.nodes[id]));
    assert(earley_forest::packed_ok(w.forest, w.rules.len(), p));
    assert(rank_laws::is_below(depth, p.right, depth[id]));
    let gap = earley_tree::with_gap(w, b, p.rule as int, p.right_pos as int);
    assert(earley_tree::with_gap(v, b, p.rule as int, p.right_pos as int) == gap);
    match p.right {
        ForestRef::Nothing => {},
        ForestRef::Tok(t) => {
            assert(earley_tree::token_value(v, t as int) == earley_tree::token_value(w, t as int));
        },
        ForestRef::Node(c) => {
            assert(is_best(w, worth, c as int, best[c as int] as int));
            assert(is_uniform(w, c as int));
            let q = w.forest.nodes[c as int].families[best[c as int] as int];
            assert(v.forest.nodes[c as int].families =~= seq![q]);
            assert(earley_tree::is_transparent(v, c as int) == earley_tree::is_transparent(
                w,
                c as int,
            ));
            if earley_tree::is_transparent(w, c as int) {
                lemma_rule(w, depth, worth, best, c as int, gap, m, m2, visiting);
            } else {
                lemma_value(w, depth, worth, best, c as int, m, m2, visiting);
            }
        },
    }
}

proof fn lemma_value(
    w: earley_rank::Walk,
    depth: Seq<nat>,
    worth: Seq<int>,
    best: Seq<usize>,
    id: int,
    m: earley_rank::Found,
    m2: earley_rank::Found,
    visiting: Seq<bool>,
)
    requires
        is_choice(w, depth, worth, best),
        0 <= id < depth.len(),
        rank_laws::above(depth, visiting, depth[id] + 1),
        is_same(m, m2),
        rank_laws::is_true_to(worth, m.prio),
    ensures
        ({
            let x = earley_tree::node_value(w, id, m, visiting);
            let y = earley_tree::node_value(pruned(w, best), id, m2, visiting);
            &&& x.0 is Some
            &&& x.0 == y.0
            &&& is_same(x.1, y.1)
            &&& rank_laws::is_true_to(worth, x.1.prio)
        }),
    decreases depth[id], 3nat,
{
    if m.values[id] is None {
        let b = earley_tree::blank_buffer();
        lemma_rule(w, depth, worth, best, id, b, m, m2, visiting);
    }
}

/// Where one derivation is to be chosen, a forest without cycles has the value of the
/// forest in which each node keeps only its best family: one that is not empty before
/// one that is, then the one of the highest priority, then the one whose rule was
/// written first.
pub proof fn best_derivations_are_chosen(
    w: earley_rank::Walk,
    depth: Seq<nat>,
    worth: Seq<int>,
    best: Seq<usize>,
    root: int,
)
    requires
        is_choice(w, depth, worth, best),
        0 <= root < depth.len(),
    ensures
        earley_tree::transformed(w, root) is Some,
        earley_tree::transformed(w, root) == earley_tree::transformed(pruned(w, best), root),
{
    let n = w.forest.nodes.len();
    let none = earley_tree::nothing_found(n);
    lemma_value(w, depth, worth, best, root, none, none, earley_rank::idle(n));
}

} // verus!
