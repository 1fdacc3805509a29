//! The tree of a forest: a root that can be built of visited nodes has a value.

use vstd::prelude::*;
use crate::earley_chain;
use crate::earley_forest;
use crate::earley_forest::{ForestRef, Packed};
use crate::earley_good;
use crate::earley_rank;
use crate::earley_tree;
use crate::tree;

verus! {

/// Whether the visited nodes of a forest can be built of visited nodes alone,
/// by families.
pub open spec fn is_buildable(f: earley_forest::ForestModel, k: earley_good::Known) -> bool {
    &&& k.pending.len() == 0
    &&& k.given == Set::<int>::empty()
    &&& earley_chain::visited_in(f, k)
    &&& forall|v: usize| #[trigger]
        k.visited.contains(v) ==> f.nodes[v as int].paths.len() == 0 && earley_good::is_good(
            f,
            k,
            v as int,
        )
    &&& f.nodes.len() <= usize::MAX
    &&& forall|x: int|
        0 <= x < f.nodes.len() ==> (#[trigger] f.nodes[x]).families.len() <= usize::MAX
}

/// Whether no node being built can be built in `d` steps.
pub open spec fn none_good(
    f: earley_forest::ForestModel,
    k: earley_good::Known,
    visiting: Seq<bool>,
    d: nat,
) -> bool {
    &&& visiting.len() == f.nodes.len()
    &&& forall|y: int|
        0 <= y < visiting.len() && #[trigger] visiting[y] ==> !earley_good::good(f, k, y, d)
}

/// Fewer steps build no more.
proof fn lemma_none_good_less(
    f: earley_forest::ForestModel,
    k: earley_good::Known,
    visiting: Seq<bool>,
    d: nat,
    e: nat,
)
    requires
        none_good(f, k, visiting, d),
        e <= d,
    ensures
        none_good(f, k, visiting, e),
{
    assert forall|y: int|
        0 <= y < visiting.len() && #[trigger] visiting[y] implies !earley_good::good(f, k, y, e) by {
        if earley_good::good(f, k, y, e) {
            earley_good::lemma_good_more(f, k, y, e, d);
        }
    }
}

proof fn lemma_inserted_has(
    w: earley_rank::Walk,
    families: Seq<Packed>,
    prios: Seq<i64>,
    s: Seq<usize>,
    x: usize,
    y: usize,
)
    requires
        y == x || s.contains(y),
    ensures
        earley_rank::inserted(w, families, prios, s, x).contains(y),
    decreases s.len(),
{
    let r = earley_rank::inserted(w, families, prios, s, x);
    if s.len() > 0 && earley_rank::tried_before(
        w,
        families,
        prios,
        x as int,
        s.last() as int,
    ) {
        let front = earley_rank::inserted(w, families, prios, s.drop_last(), x);
        if y != x && s.last() == y && !s.drop_last().contains(y) {
            assert(r[front.len() as int] == y);
        } else {
            if y != x {
                let i = choose|i: int| 0 <= i < s.len() && s[i] == y;
                if i < s.len() - 1 {
                    assert(s.drop_last()[i] == y);
                }
            }
            lemma_inserted_has(w, families, prios, s.drop_last(), x, y);
            let q = choose|q: int| 0 <= q < front.len() && front[q] == y;
            assert(r[q] == y);
        }
    } else if y == x {
        assert(r[s.len() as int] == y);
    } else {
        let i = choose|i: int| 0 <= i < s.len() && s[i] == y;
        assert(r[i] == y);
    }
}

/// Every family is among those tried.
pub(crate) proof fn lemma_order_has(
    w: earley_rank::Walk,
    families: Seq<Packed>,
    prios: Seq<i64>,
    k: nat,
    j: usize,
)
    requires
        j < k <= families.len() <= usize::MAX,
    ensures
        earley_rank::in_order(w, families, prios, k).contains(j),
    decreases k,
{
    let s = earley_rank::in_order(w, families, prios, (k - 1) as nat);
    if j < k - 1 {
        lemma_order_has(w, families, prios, (k - 1) as nat, j);
    }
    lemma_inserted_has(w, families, prios, s, (k - 1) as usize, j);
}

/// A node that can be built in `d` steps is built, where no node being built
/// can be built in as many.
proof fn lemma_rule_built(
    w: earley_rank::Walk,
    k: earley_good::Known,
    id: usize,
    b: earley_tree::Buffer,
    m: earley_rank::Found,
    visiting: Seq<bool>,
    d: nat,
)
    requires
        w.resolve,
        is_buildable(w.forest, k),
        k.visited.contains(id),
        earley_good::good(w.forest, k, id as int, d),
        none_good(w.forest, k, visiting, d),
    ensures
        earley_tree::rule_appended(w, id as int, b, m, visiting).0 is Some,
    decreases d, 2nat, 0nat,
{
    let f = w.forest;
    let x = id as int;
    assert(x < f.nodes.len());
    assert(!visiting[x]);
    if d > 0 && earley_good::good(f, k, x, (d - 1) as nat) {
        lemma_none_good_less(f, k, visiting, d, (d - 1) as nat);
        lemma_rule_built(w, k, id, b, m, visiting, (d - 1) as nat);
    } else {
        let e = (d - 1) as nat;
        let fs = f.nodes[x].families;
        assert(f.nodes[x].paths.len() == 0);
        let j = choose|j: int|
            0 <= j < fs.len() && earley_good::led(f, k, x, (#[trigger] fs[j]).left, e)
                && earley_good::led(f, k, x, fs[j].right, e);
        let (order, prio) = earley_rank::tried(w, x, m.prio);
        let vs = earley_rank::family_priorities(w, x, m.prio, fs.len()).0;
        lemma_order_has(w, fs, vs, fs.len(), j as usize);
        let q = choose|q: int| 0 <= q < order.len() && order[q] == j as usize;
        let now = visiting.update(x, true);
        lemma_none_good_less(f, k, visiting, d, e);
        assert forall|y: int|
            0 <= y < now.len() && #[trigger] now[y] implies !earley_good::good(f, k, y, e) by {
            if y != x {
                assert(visiting[y]);
            }
        }
        lemma_families_built(
            w,
            k,
            id,
            order,
            0,
            q,
            b,
            earley_rank::entered(m, prio),
            now,
            d,
        );
    }
}

proof fn lemma_families_built(
    w: earley_rank::Walk,
    k: earley_good::Known,
    id: usize,
    order: Seq<usize>,
    i: nat,
    q: int,
    b: earley_tree::Buffer,
    m: earley_rank::Found,
    visiting: Seq<bool>,
    d: nat,
)
    requires
        w.resolve,
        is_buildable(w.forest, k),
        k.visited.contains(id),
        d > 0,
        i <= q < order.len(),
        order[q] < w.forest.nodes[id as int].families.len(),
        earley_good::led(
            w.forest,
            k,
            id as int,
            w.forest.nodes[id as int].families[order[q] as int].left,
            (d - 1) as nat,
        ),
        earley_good::led(
            w.forest,
            k,
            id as int,
            w.forest.nodes[id as int].families[order[q] as int].right,
            (d - 1) as nat,
        ),
        none_good(w.forest, k, visiting, (d - 1) as nat),
    ensures
        earley_tree::families_tried(w, id as int, order, i, b, m, visiting).0 is Some,
    decreases d, 1nat, q - i,
{
    let p = w.forest.nodes[id as int].families[order[i as int] as int];
    let (ok, b1, m1) = earley_tree::packed_appended(w, p, b, m, visiting);
    if i == q {
        lemma_packed_built(w, k, id, p, b, m, visiting, (d - 1) as nat);
    } else if !ok {
        lemma_families_built(w, k, id, order, i + 1, q, b, m1, visiting, d);
    }
}

proof fn lemma_packed_built(
    w: earley_rank::Walk,
    k: earley_good::Known,
    id: usize,
    p: Packed,
    b: earley_tree::Buffer,
    m: earley_rank::Found,
    visiting: Seq<bool>,
    e: nat,
)
    requires
        w.resolve,
        is_buildable(w.forest, k),
        k.visited.contains(id),
        earley_good::led(w.forest, k, id as int, p.left, e),
        earley_good::led(w.forest, k, id as int, p.right, e),
        none_good(w.forest, k, visiting, e),
    ensures
        earley_tree::packed_appended(w, p, b, m, visiting).0,
    decreases e, 3nat, 1nat,
{
    match p.left {
        ForestRef::Nothing => {
            lemma_right_built(w, k, id, p, b, m, visiting, e);
        },
        ForestRef::Node(l) => {
            lemma_rule_built(w, k, l, b, m, visiting, e);
            let (_r, b1, m1) = earley_tree::rule_appended(w, l as int, b, m, visiting);
            lemma_right_built(w, k, id, p, b1, m1, visiting, e);
        },
        ForestRef::Tok(t) => {
            let v = earley_tree::token_value(w, t as int);
            let b1 = earley_tree::Buffer {
                nodes: b.nodes.push(tree::Node::Token(w.forest.tokens[t as int])),
                span: earley_tree::span_with(w, b.span, v),
            };
            lemma_right_built(w, k, id, p, b1, m, visiting, e);
        },
    }
}

proof fn lemma_right_built(
    w: earley_rank::Walk,
    k: earley_good::Known,
    id: usize,
    p: Packed,
    b: earley_tree::Buffer,
    m: earley_rank::Found,
    visiting: Seq<bool>,
    e: nat,
)
    requires
        w.resolve,
        is_buildable(w.forest, k),
        k.visited.contains(id),
        earley_good::led(w.forest, k, id as int, p.right, e),
        none_good(w.forest, k, visiting, e),
    ensures
        earley_tree::right_appended(w, p, b, m, visiting).0,
    decreases e, 3nat, 0nat,
{
    if let ForestRef::Node(c) = p.right {
        let gap = earley_tree::with_gap(w, b, p.rule as int, p.right_pos as int);
        if earley_tree::is_transparent(w, c as int) {
            lemma_rule_built(w, k, c, gap, m, visiting, e);
        } else {
            lemma_rule_built(w, k, c, earley_tree::blank_buffer(), m, visiting, e);
        }
    }
}

/// The root of a forest has a value where it can be built of visited nodes.
pub proof fn lemma_root_built(w: earley_rank::Walk, k: earley_good::Known, root: usize)
    requires
        w.resolve,
        is_buildable(w.forest, k),
        k.visited.contains(root),
    ensures
        earley_tree::transformed(w, root as int) is Some,
{
    let n = w.forest.nodes.len();
    let d = choose|d: nat| #[trigger] earley_good::good(w.forest, k, root as int, d);
    lemma_rule_built(
        w,
        k,
        root,
        earley_tree::blank_buffer(),
        earley_tree::nothing_found(n),
        earley_rank::idle(n),
        d,
    );
}

} // verus!
